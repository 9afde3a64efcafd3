//! Key material as text: the key files and the configuration of the local
//! key store.
//!
//! Keys are stored as base64-encoded 32-byte seeds, one per file, followed
//! by a newline.  A default key alias can be configured in a TOML file as
//! `default_key = "<alias>"`.  The files themselves are read and written by
//! the program around the library.
use vstd::prelude::*;

use base64::engine::general_purpose::STANDARD as BASE64;
use base64::Engine;

use crate::error::{fails_with, WsntpError};

use toml::Value;

verus! {

/// The characters an alias must not contain.
pub open spec fn forbidden_in_alias(c: char) -> bool {
    c == '/' || c == '\\' || c == '.' || c == ' '
}

/// An alias may name key files: it is not empty and holds no forbidden
/// character.
pub open spec fn valid_alias(alias: Seq<char>) -> bool {
    alias.len() > 0 && forall|i: int| 0 <= i < alias.len() ==> !forbidden_in_alias(#[trigger] alias[i])
}

/// Whether `alias` may name a key pair: not empty, and free of `/`, `\`,
/// `.` and spaces.
pub fn alias_is_valid(alias: &str) -> (ok: bool)
    ensures
        ok == valid_alias(alias@),
{
    let n = alias.unicode_len();
    if n == 0 {
        return false;
    }
    let mut i: usize = 0;
    while i < n
        invariant
            n == alias@.len(),
            i <= n,
            forall|k: int| 0 <= k < i ==> !forbidden_in_alias(#[trigger] alias@[k]),
        decreases n - i,
    {
        let c = alias.get_char(i);
        if c == '/' || c == '\\' || c == '.' || c == ' ' {
            return false;
        }
        i = i + 1;
    }
    true
}

/// The text of the error for an alias that may not name a key pair.
pub open spec fn invalid_alias_text(alias: Seq<char>) -> Seq<char> {
    "invalid key alias: '"@ + alias + "' (must not contain ['/', '\\\\', '.', ' '])"@
}

/// Check that `alias` may name a new key pair.
pub fn validate_alias(alias: &str) -> (r: Result<(), WsntpError>)
    ensures
        r is Ok <==> valid_alias(alias@),
        r is Err ==> fails_with(r, invalid_alias_text(alias@)),
{
    if alias_is_valid(alias) {
        Ok(())
    } else {
        let mut text = String::from_str("invalid key alias: '");
        text.append(alias);
        text.append("' (must not contain ['/', '\\\\', '.', ' '])");
        Err(WsntpError::Cli(text))
    }
}

/// The file names of a key pair in the key directory, and of the temporary
/// files they are first written to.
pub struct KeyFileNames {
    pub public: String,
    pub secret: String,
    pub public_tmp: String,
    pub secret_tmp: String,
}

/// `<alias>.pub`, `<alias>.secret`, and the hidden `.<alias>.pub.tmp` and
/// `.<alias>.secret.tmp`.
pub fn key_file_names(alias: &str) -> (names: KeyFileNames)
    ensures
        names.public@ == alias@ + ".pub"@,
        names.secret@ == alias@ + ".secret"@,
        names.public_tmp@ == "."@ + alias@ + ".pub.tmp"@,
        names.secret_tmp@ == "."@ + alias@ + ".secret.tmp"@,
{
    let mut public = String::from_str(alias);
    public.append(".pub");
    let mut secret = String::from_str(alias);
    secret.append(".secret");
    let mut public_tmp = String::from_str(".");
    public_tmp.append(alias);
    public_tmp.append(".pub.tmp");
    let mut secret_tmp = String::from_str(".");
    secret_tmp.append(alias);
    secret_tmp.append(".secret.tmp");
    KeyFileNames { public, secret, public_tmp, secret_tmp }
}

/// The error for an alias that already names a key pair.
pub fn alias_taken(alias: &str) -> (e: WsntpError)
    ensures
        e matches WsntpError::Cli(m) && m@ == "key alias '"@ + alias@ + "' already exists"@,
{
    let mut text = String::from_str("key alias '");
    text.append(alias);
    text.append("' already exists");
    WsntpError::Cli(text)
}

/// The error for a missing key file; `kind` is "public" or "secret".
pub fn key_not_found(kind: &str, alias: &str) -> (e: WsntpError)
    ensures
        e matches WsntpError::KeyNotFound(m) && m@ == kind@ + " key '"@ + alias@ + "' not found"@,
{
    let mut text = String::from_str(kind);
    text.append(" key '");
    text.append(alias);
    text.append("' not found");
    WsntpError::KeyNotFound(text)
}

/// The alias whose public key file is named `name`: the name without its
/// `.pub` suffix.
pub open spec fn alias_of_file_name(name: Seq<char>) -> Option<Seq<char>> {
    if name.len() >= 4 && name.subrange(name.len() - 4, name.len() as int) == ".pub"@ {
        Some(name.subrange(0, name.len() - 4))
    } else {
        None
    }
}

/// The aliases named by the public key files among `names`, in the order of
/// the names.
pub open spec fn listed(names: Seq<Seq<char>>) -> Seq<Seq<char>>
    decreases names.len(),
{
    if names.len() == 0 {
        Seq::empty()
    } else {
        let rest = listed(names.drop_last());
        match alias_of_file_name(names.last()) {
            Some(a) => rest.push(a),
            None => rest,
        }
    }
}

/// A key pair saved under an alias is listed under that alias: its public
/// key file names the alias, while its secret key file and the temporary
/// files it is written through name none.
pub proof fn lemma_saved_alias_is_listed(alias: Seq<char>)
    ensures
        alias_of_file_name(alias + ".pub"@) == Some(alias),
        alias_of_file_name(alias + ".secret"@) is None,
        alias_of_file_name("."@ + alias + ".pub.tmp"@) is None,
        alias_of_file_name("."@ + alias + ".secret.tmp"@) is None,
{
    reveal_strlit(".pub");
    reveal_strlit(".secret");
    reveal_strlit(".");
    reveal_strlit(".pub.tmp");
    reveal_strlit(".secret.tmp");
    let n = alias + ".pub"@;
    assert(n.subrange(n.len() - 4, n.len() as int) =~= ".pub"@);
    assert(n.subrange(0, n.len() - 4) =~= alias);
    let s = alias + ".secret"@;
    assert(s.subrange(s.len() - 4, s.len() as int)[0] == 'c');
    let t = "."@ + alias + ".pub.tmp"@;
    assert(t.subrange(t.len() - 4, t.len() as int)[1] == 't');
    let u = "."@ + alias + ".secret.tmp"@;
    assert(u.subrange(u.len() - 4, u.len() as int)[1] == 't');
}

/// `a` comes before `b`, or is `b`, when texts are ordered character by
/// character (by code point, a prefix first).  This is the order of
/// `String`'s `Ord`, as UTF-8 keeps the order of code points.
pub open spec fn text_le(a: Seq<char>, b: Seq<char>) -> bool
    decreases a.len(),
{
    if a.len() == 0 {
        true
    } else if b.len() == 0 {
        false
    } else if a[0] != b[0] {
        a[0] < b[0]
    } else {
        text_le(a.drop_first(), b.drop_first())
    }
}

/// The texts of a sequence of strings.
pub open spec fn texts_of(s: Seq<String>) -> Seq<Seq<char>> {
    s.map_values(|t: String| t@)
}

/// `s` is in ascending order.
pub open spec fn texts_sorted(s: Seq<Seq<char>>) -> bool {
    forall|i: int, j: int| 0 <= i < j < s.len() ==> text_le(#[trigger] s[i], #[trigger] s[j])
}

/// Any two texts are ordered one way or the other.
pub proof fn lemma_text_le_total(a: Seq<char>, b: Seq<char>)
    ensures
        text_le(a, b) || text_le(b, a),
    decreases a.len(),
{
    if a.len() > 0 && b.len() > 0 && a[0] == b[0] {
        lemma_text_le_total(a.drop_first(), b.drop_first());
    }
}

/// The order of texts is transitive.
pub proof fn lemma_text_le_trans(a: Seq<char>, b: Seq<char>, c: Seq<char>)
    requires
        text_le(a, b),
        text_le(b, c),
    ensures
        text_le(a, c),
    decreases a.len(),
{
    if a.len() > 0 && b.len() > 0 && c.len() > 0 && a[0] == b[0] && b[0] == c[0] {
        lemma_text_le_trans(a.drop_first(), b.drop_first(), c.drop_first());
    }
}

/// The order of texts is the lexicographic order by code point: a text
/// comes before every text it is a prefix of, and at the first position
/// where two texts differ, the smaller character comes first.
pub proof fn lemma_text_le_lexicographic(a: Seq<char>, b: Seq<char>, k: int)
    requires
        0 <= k <= a.len(),
        k <= b.len(),
        a.subrange(0, k) == b.subrange(0, k),
    ensures
        k == a.len() ==> text_le(a, b),
        k < a.len() && k < b.len() && a[k] < b[k] ==> text_le(a, b) && !text_le(b, a),
        k < a.len() && k == b.len() ==> !text_le(a, b),
    decreases k,
{
    if k > 0 {
        assert(a[0] == a.subrange(0, k)[0]);
        assert(b[0] == b.subrange(0, k)[0]);
        assert(a.drop_first().subrange(0, k - 1) =~= a.subrange(0, k).drop_first());
        assert(b.drop_first().subrange(0, k - 1) =~= b.subrange(0, k).drop_first());
        lemma_text_le_lexicographic(a.drop_first(), b.drop_first(), k - 1);
    }
}

/// Whether `a` comes before `b`, or is `b`, in the order of texts.
pub fn text_in_order(a: &str, b: &str) -> (r: bool)
    ensures
        r == text_le(a@, b@),
{
    let na = a.unicode_len();
    let nb = b.unicode_len();
    let mut i: usize = 0;
    assert(a@.skip(0) =~= a@ && b@.skip(0) =~= b@);
    while i < na && i < nb
        invariant
            na == a@.len(),
            nb == b@.len(),
            i <= na,
            i <= nb,
            text_le(a@, b@) == text_le(a@.skip(i as int), b@.skip(i as int)),
        decreases na - i,
    {
        let ca = a.get_char(i);
        let cb = b.get_char(i);
        if ca != cb {
            return ca < cb;
        }
        proof {
            assert(a@.skip(i as int).drop_first() =~= a@.skip(i + 1));
            assert(b@.skip(i as int).drop_first() =~= b@.skip(i + 1));
        }
        i = i + 1;
    }
    i == na
}

/// The alias named by the key directory's file `name`, if it is a public
/// key file.
pub fn alias_of_file(name: &str) -> (r: Option<String>)
    ensures
        match r {
            Some(a) => alias_of_file_name(name@) == Some(a@),
            None => alias_of_file_name(name@) is None,
        },
{
    let n = name.unicode_len();
    if n < 4 {
        return None;
    }
    let suffix = name.substring_char(n - 4, n);
    proof {
        reveal_strlit(".pub");
    }
    if suffix.get_char(0) == '.' && suffix.get_char(1) == 'p' && suffix.get_char(2) == 'u'
        && suffix.get_char(3) == 'b' {
        assert(suffix@ =~= ".pub"@);
        Some(String::from_str(name.substring_char(0, n - 4)))
    } else {
        proof {
            if name@.subrange(n - 4, n as int) == ".pub"@ {
                assert(suffix@[0] == '.' && suffix@[1] == 'p' && suffix@[2] == 'u' && suffix@[3] == 'b');
            }
        }
        None
    }
}

/// Insert `alias` into the ascending `aliases`, after every alias that
/// comes before it or equals it.
fn insert_sorted(aliases: &mut Vec<String>, alias: String)
    requires
        texts_sorted(texts_of(old(aliases)@)),
    ensures
        texts_sorted(texts_of(final(aliases)@)),
        texts_of(final(aliases)@).to_multiset() == texts_of(old(aliases)@).to_multiset().insert(
            alias@,
        ),
{
    let ghost before = texts_of(aliases@);
    let mut p: usize = 0;
    while p < aliases.len() && text_in_order(aliases[p].as_str(), alias.as_str())
        invariant
            p <= aliases@.len(),
            before == texts_of(aliases@),
            texts_sorted(before),
            forall|k: int| 0 <= k < p ==> text_le(#[trigger] before[k], alias@),
        decreases aliases@.len() - p,
    {
        p = p + 1;
    }
    let ghost x = alias@;
    proof {
        if p < before.len() {
            assert(!text_le(before[p as int], x));
            lemma_text_le_total(before[p as int], x);
        }
    }
    aliases.insert(p, alias);
    proof {
        let after = texts_of(aliases@);
        assert(after =~= before.insert(p as int, x));
        vstd::seq_lib::to_multiset_insert(before, p as int, x);
        assert forall|i: int, j: int| 0 <= i < j < after.len() implies text_le(
            #[trigger] after[i],
            #[trigger] after[j],
        ) by {
            if j < p {
                assert(after[i] == before[i] && after[j] == before[j]);
            } else if j == p {
                assert(after[i] == before[i]);
            } else if i < p {
                assert(after[i] == before[i] && after[j] == before[j - 1]);
                assert(text_le(before[i], x));
                assert(text_le(x, before[p as int]));
                if p < j - 1 {
                    assert(text_le(before[p as int], before[j - 1]));
                    lemma_text_le_trans(x, before[p as int], before[j - 1]);
                }
                lemma_text_le_trans(before[i], x, before[j - 1]);
            } else if i == p {
                assert(after[j] == before[j - 1]);
                if p < j - 1 {
                    assert(text_le(before[p as int], before[j - 1]));
                    lemma_text_le_trans(x, before[p as int], before[j - 1]);
                }
            } else {
                assert(after[i] == before[i - 1] && after[j] == before[j - 1]);
            }
        }
    }
}

/// The aliases of the key store, from the names of the files in its key
/// directory: each name that ends in `.pub`, without that suffix, in
/// ascending order.
pub fn aliases_from_file_names(names: &Vec<String>) -> (aliases: Vec<String>)
    ensures
        texts_sorted(texts_of(aliases@)),
        texts_of(aliases@).to_multiset() == listed(texts_of(names@)).to_multiset(),
{
    let mut out: Vec<String> = Vec::new();
    let mut i: usize = 0;
    proof {
        assert(texts_of(names@).subrange(0, 0) =~= Seq::<Seq<char>>::empty());
        assert(texts_of(out@) =~= Seq::<Seq<char>>::empty());
    }
    while i < names.len()
        invariant
            i <= names@.len(),
            texts_sorted(texts_of(out@)),
            texts_of(out@).to_multiset() == listed(texts_of(names@).subrange(0, i as int)).to_multiset(),
        decreases names@.len() - i,
    {
        let ghost prefix = texts_of(names@).subrange(0, i + 1);
        proof {
            assert(prefix.drop_last() =~= texts_of(names@).subrange(0, i as int));
            assert(prefix.last() == names@[i as int]@);
        }
        match alias_of_file(names[i].as_str()) {
            Some(alias) => {
                insert_sorted(&mut out, alias);
                proof {
                    vstd::seq_lib::to_multiset_build(listed(prefix.drop_last()), prefix.last().subrange(0, prefix.last().len() - 4));
                }
            },
            None => {},
        }
        i = i + 1;
    }
    proof {
        assert(texts_of(names@).subrange(0, names@.len() as int) =~= texts_of(names@));
    }
    out
}

/// `c` has the Unicode `White_Space` property (what `char::is_whitespace`
/// tests).
pub open spec fn is_white_space(c: char) -> bool {
    ('\u{9}' <= c && c <= '\u{d}') || c == ' ' || c == '\u{85}' || c == '\u{a0}' || c == '\u{1680}'
        || ('\u{2000}' <= c && c <= '\u{200a}') || c == '\u{2028}' || c == '\u{2029}' || c
        == '\u{202f}' || c == '\u{205f}' || c == '\u{3000}'
}

/// `s` without its leading white space.
pub open spec fn trim_start(s: Seq<char>) -> Seq<char>
    decreases s.len(),
{
    if s.len() > 0 && is_white_space(s[0]) {
        trim_start(s.drop_first())
    } else {
        s
    }
}

/// `s` without its trailing white space.
pub open spec fn trim_end(s: Seq<char>) -> Seq<char>
    decreases s.len(),
{
    if s.len() > 0 && is_white_space(s.last()) {
        trim_end(s.drop_last())
    } else {
        s
    }
}

/// `s` without leading and trailing white space.
pub open spec fn trimmed(s: Seq<char>) -> Seq<char> {
    trim_end(trim_start(s))
}

/// Whether `c` has the Unicode `White_Space` property.
fn white_space(c: char) -> (r: bool)
    ensures
        r == is_white_space(c),
{
    ('\u{9}' <= c && c <= '\u{d}') || c == ' ' || c == '\u{85}' || c == '\u{a0}' || c == '\u{1680}'
        || ('\u{2000}' <= c && c <= '\u{200a}') || c == '\u{2028}' || c == '\u{2029}' || c
        == '\u{202f}' || c == '\u{205f}' || c == '\u{3000}'
}

/// The text without its leading and trailing white space, as `str::trim`
/// removes it.
fn trim<'a>(s: &'a str) -> (r: &'a str)
    ensures
        r@ == trimmed(s@),
{
    let n = s.unicode_len();
    let mut i: usize = 0;
    assert(s@.subrange(0, n as int) =~= s@);
    while i < n && white_space(s.get_char(i))
        invariant
            n == s@.len(),
            i <= n,
            trim_start(s@) == trim_start(s@.subrange(i as int, n as int)),
        decreases n - i,
    {
        assert(s@.subrange(i as int, n as int).drop_first() =~= s@.subrange(i + 1, n as int));
        i = i + 1;
    }
    let ghost rest = s@.subrange(i as int, n as int);
    assert(trim_start(rest) == rest) by {
        if i < n {
            assert(rest[0] == s@[i as int]);
        }
    }
    let mut j: usize = n;
    while j > i && white_space(s.get_char(j - 1))
        invariant
            n == s@.len(),
            i <= j <= n,
            rest == s@.subrange(i as int, n as int),
            trim_end(rest) == trim_end(s@.subrange(i as int, j as int)),
        decreases j - i,
    {
        assert(s@.subrange(i as int, j as int).drop_last() =~= s@.subrange(i as int, j - 1));
        j = j - 1;
    }
    assert(trim_end(s@.subrange(i as int, j as int)) == s@.subrange(i as int, j as int)) by {
        if j > i {
            assert(s@.subrange(i as int, j as int).last() == s@[j - 1]);
        }
    }
    s.substring_char(i, j)
}

/// The text `base64`'s standard engine (padded alphabet) encodes `bytes` to.
pub uninterp spec fn base64_standard_encoding(bytes: Seq<u8>) -> Seq<char>;

/// The bytes `base64`'s standard engine decodes `text` to, or `None` when it
/// rejects the text.
pub uninterp spec fn base64_standard_decoding(text: Seq<char>) -> Option<Seq<u8>>;

/// A character of the standard base64 alphabet, or the padding `=`.
pub open spec fn base64_char(c: char) -> bool {
    ('A' <= c && c <= 'Z') || ('a' <= c && c <= 'z') || ('0' <= c && c <= '9') || c == '+' || c
        == '/' || c == '='
}

/// Encodes a key with `base64`'s `STANDARD` engine (`Engine::encode`).
///
/// Trusted: the text is the one named by `base64_standard_encoding`; it is
/// 44 characters of the padded standard alphabet (four per three bytes,
/// rounded up); and the same engine decodes it back to the key (the
/// encoding is canonical, which the engine's `RequireCanonical` padding
/// mode accepts).
#[verifier::external_body]
fn base64_encode_key(key: &[u8; 32]) -> (text: String)
    ensures
        text@ == base64_standard_encoding(key@),
        text@.len() == 44,
        forall|i: int| 0 <= i < text@.len() ==> base64_char(#[trigger] text@[i]),
        base64_standard_decoding(text@) == Some(key@),
{
    BASE64.encode(key)
}

/// Decodes with `base64`'s `STANDARD` engine (`Engine::decode`).
///
/// Trusted: the result is the one named by `base64_standard_decoding`; a
/// `DecodeError` becomes `None`.
#[verifier::external_body]
fn base64_decode(text: &str) -> (bytes: Option<Vec<u8>>)
    ensures
        match bytes {
            Some(b) => base64_standard_decoding(text@) == Some(b@),
            None => base64_standard_decoding(text@) is None,
        },
{
    BASE64.decode(text).ok()
}

/// Why the text of a key is not a key.
#[derive(Debug, Clone, Copy, PartialEq, Eq)]
pub enum KeyTextError {
    /// The text is not standard base64.
    NotBase64,
    /// The text decodes to a number of bytes other than 32.
    WrongLength,
}

/// The key that a key text holds, if any.
pub open spec fn key_of_text(text: Seq<char>) -> Result<Seq<u8>, KeyTextError> {
    match base64_standard_decoding(trimmed(text)) {
        None => Err(KeyTextError::NotBase64),
        Some(b) => if b.len() == 32 {
            Ok(b)
        } else {
            Err(KeyTextError::WrongLength)
        },
    }
}

/// Decode a key from base64 text, ignoring surrounding white space.
pub fn decode_key_text(text: &str) -> (r: Result<[u8; 32], KeyTextError>)
    ensures
        match r {
            Ok(k) => key_of_text(text@) == Ok::<Seq<u8>, KeyTextError>(k@),
            Err(e) => key_of_text(text@) == Err::<Seq<u8>, KeyTextError>(e),
        },
{
    let bytes = match base64_decode(trim(text)) {
        Some(b) => b,
        None => return Err(KeyTextError::NotBase64),
    };
    if bytes.len() != 32 {
        return Err(KeyTextError::WrongLength);
    }
    let mut key = [0u8; 32];
    let mut i: usize = 0;
    while i < 32
        invariant
            i <= 32,
            bytes@.len() == 32,
            forall|k: int| 0 <= k < i ==> key@[k] == bytes@[k],
        decreases 32 - i,
    {
        key[i] = bytes[i];
        i = i + 1;
    }
    assert(key@ =~= bytes@);
    Ok(key)
}

/// The contents of a key file: the base64 text of the key and a newline.
pub fn key_file_text(key: &[u8; 32]) -> (text: String)
    ensures
        text@ == base64_standard_encoding(key@) + seq!['\n'],
        key_of_text(text@) == Ok::<Seq<u8>, KeyTextError>(key@),
{
    let mut text = base64_encode_key(key);
    let ghost enc = text@;
    text.append("\n");
    proof {
        reveal_strlit("\n");
        assert(text@ =~= enc + seq!['\n']);
        lemma_trim_encoded(enc);
    }
    text
}

proof fn lemma_trim_start_plain(s: Seq<char>)
    requires
        s.len() > 0,
        !is_white_space(s[0]),
    ensures
        trim_start(s) == s,
{
}

proof fn lemma_trim_encoded(enc: Seq<char>)
    requires
        enc.len() > 0,
        forall|i: int| 0 <= i < enc.len() ==> base64_char(#[trigger] enc[i]),
    ensures
        trimmed(enc + seq!['\n']) == enc,
{
    let s = enc + seq!['\n'];
    assert(base64_char(enc[0]));
    assert(s[0] == enc[0]);
    lemma_trim_start_plain(s);
    assert(is_white_space(s.last()));
    assert(s.drop_last() =~= enc);
    assert(base64_char(enc.last()));
    assert(!is_white_space(enc.last()));
    assert(trim_end(s) == trim_end(s.drop_last()));
    assert(trim_end(enc) == enc);
}

/// Decode a 32-byte key given as base64 text; `label` names it in errors.
pub fn decode_key(b64: &str, label: &str) -> (r: Result<[u8; 32], WsntpError>)
    ensures
        r matches Ok(k) ==> key_of_text(b64@) == Ok::<Seq<u8>, KeyTextError>(k@),
        key_of_text(b64@) is Ok ==> r is Ok,
        key_of_text(b64@) == Err::<Seq<u8>, KeyTextError>(KeyTextError::NotBase64) ==> fails_with(
            r,
            "invalid base64 "@ + label@,
        ),
        key_of_text(b64@) == Err::<Seq<u8>, KeyTextError>(KeyTextError::WrongLength) ==> fails_with(
            r,
            label@ + " must be 32 bytes"@,
        ),
{
    match decode_key_text(b64) {
        Ok(k) => Ok(k),
        Err(KeyTextError::NotBase64) => {
            let mut text = String::from_str("invalid base64 ");
            text.append(label);
            Err(WsntpError::Cli(text))
        },
        Err(KeyTextError::WrongLength) => {
            let mut text = String::from_str(label);
            text.append(" must be 32 bytes");
            Err(WsntpError::Cli(text))
        },
    }
}

/// The key held by the contents of the `kind` ("public" or "secret") key
/// file of `alias`.
pub fn parse_key_file(text: &str, alias: &str, kind: &str) -> (r: Result<[u8; 32], WsntpError>)
    ensures
        r matches Ok(k) ==> key_of_text(text@) == Ok::<Seq<u8>, KeyTextError>(k@),
        key_of_text(text@) is Ok ==> r is Ok,
        key_of_text(text@) == Err::<Seq<u8>, KeyTextError>(KeyTextError::NotBase64) ==> fails_with(
            r,
            "corrupt "@ + kind@ + " key file for '"@ + alias@ + "'"@,
        ),
        key_of_text(text@) == Err::<Seq<u8>, KeyTextError>(KeyTextError::WrongLength) ==> fails_with(
            r,
            kind@ + " key for '"@ + alias@ + "' has wrong length"@,
        ),
{
    match decode_key_text(text) {
        Ok(k) => Ok(k),
        Err(KeyTextError::NotBase64) => {
            let mut m = String::from_str("corrupt ");
            m.append(kind);
            m.append(" key file for '");
            m.append(alias);
            m.append("'");
            Err(WsntpError::Cli(m))
        },
        Err(KeyTextError::WrongLength) => {
            let mut m = String::from_str(kind);
            m.append(" key for '");
            m.append(alias);
            m.append("' has wrong length");
            Err(WsntpError::Cli(m))
        },
    }
}

/// The contents of the configuration file that sets the default alias.
pub fn config_text(alias: &str) -> (text: String)
    ensures
        text@ == "default_key = \""@ + alias@ + "\"\n"@,
{
    let mut text = String::from_str("default_key = \"");
    text.append(alias);
    text.append("\"\n");
    text
}

/// Resolve the key alias to use: the one given, else the default one.
pub fn resolve_alias(alias: Option<&str>, default_alias: Option<String>) -> (r: Result<
    String,
    WsntpError,
>)
    ensures
        match alias {
            Some(a) => r matches Ok(s) && s@ == a@,
            None => match default_alias {
                Some(d) => r matches Ok(s) && s@ == d@,
                None => fails_with(r, "no key specified and no default key set"@),
            },
        },
{
    match alias {
        Some(a) => Ok(String::from_str(a)),
        None => match default_alias {
            Some(d) => Ok(d),
            None => Err(WsntpError::cli_str("no key specified and no default key set")),
        },
    }
}

/// A bare TOML key: ASCII letters, digits, `_` and `-`, at least one.
pub open spec fn bare_key(k: Seq<char>) -> bool {
    k.len() > 0 && forall|i: int|
        0 <= i < k.len() ==> {
            let c = #[trigger] k[i];
            ('A' <= c && c <= 'Z') || ('a' <= c && c <= 'z') || ('0' <= c && c <= '9') || c
                == '_' || c == '-'
        }
}

/// A character that a TOML basic string holds as itself (no escape needed).
pub open spec fn basic_string_char(c: char) -> bool {
    c != '"' && c != '\\' && (c == '\t' || (' ' <= c && c != '\u{7f}'))
}

/// The one-line TOML document `key = "value"` and a newline.
pub open spec fn simple_document(key: Seq<char>, value: Seq<char>) -> Seq<char> {
    key + " = \""@ + value + "\"\n"@
}

/// `content` is the one-line document that assigns the plain string `v` to
/// the bare key `key`.
pub open spec fn simple_assignment(content: Seq<char>, key: Seq<char>, v: Seq<char>) -> bool {
    &&& bare_key(key)
    &&& forall|i: int| 0 <= i < v.len() ==> basic_string_char(#[trigger] v[i])
    &&& content == simple_document(key, v)
}

/// What `toml` makes of `content` looked up at `key`: the text of the
/// parse error when the document does not parse; otherwise the string at
/// `key`, if there is a string there.
pub uninterp spec fn toml_lookup(content: Seq<char>, key: Seq<char>) -> Result<Option<Seq<char>>, Seq<char>>;

/// The text of an optional string.
pub open spec fn text_of(v: Option<String>) -> Option<Seq<char>> {
    match v {
        Some(s) => Some(s@),
        None => None,
    }
}

/// `r` is a string whose text is `v`.
pub open spec fn is_some_text(r: Option<String>, v: Seq<char>) -> bool {
    match r {
        Some(s) => s@ == v,
        None => false,
    }
}

/// Parses `content` as a TOML document (`str::parse::<toml::Value>`) and
/// looks up the string at `key` (`Value::get`, `Value::as_str`).
///
/// Trusted: the outcome is the one named by `toml_lookup`, a parse error
/// being given as its text (`Display`); and a document that is exactly one
/// line `key = "value"` with a bare key and a basic string free of escapes
/// parses to a table whose `key` holds `value` (TOML 1.0, keys and basic
/// strings).
#[verifier::external_body]
fn toml_string_at(content: &str, key: &str) -> (r: Result<Option<String>, String>)
    ensures
        match r {
            Ok(v) => toml_lookup(content@, key@) == Ok::<Option<Seq<char>>, Seq<char>>(text_of(v)),
            Err(e) => toml_lookup(content@, key@) == Err::<Option<Seq<char>>, Seq<char>>(e@),
        },
        (exists|v: Seq<char>| #[trigger] simple_assignment(content@, key@, v)) ==> r is Ok,
        r matches Ok(o) ==> forall|v: Seq<char>| #[trigger] simple_assignment(content@, key@, v) ==> is_some_text(o, v),
{
    match content.parse::<Value>() {
        Ok(doc) => match doc.get(key) {
            Some(entry) => match entry.as_str() {
                Some(text) => Ok(Some(text.to_string())),
                None => Ok(None),
            },
            None => Ok(None),
        },
        Err(e) => Err(e.to_string()),
    }
}

/// The default alias that a configuration file sets, if any.
///
/// The configuration is a TOML document; the default alias is the string
/// at its top-level key `default_key`.
pub fn default_alias_from_config(content: &str) -> (r: Result<Option<String>, WsntpError>)
    ensures
        match toml_lookup(content@, "default_key"@) {
            Ok(t) => r matches Ok(v) && text_of(v) == t,
            Err(detail) => fails_with(r, "malformed config.toml: "@ + detail),
        },
        forall|v: Seq<char>| #[trigger] simple_assignment(content@, "default_key"@, v) ==> (
        r matches Ok(o) && is_some_text(o, v)),
{
    match toml_string_at(content, "default_key") {
        Ok(v) => Ok(v),
        Err(detail) => {
            let mut m = String::from_str("malformed config.toml: ");
            m.append(detail.as_str());
            Err(WsntpError::Cli(m))
        },
    }
}

/// The configuration written for an alias sets that alias as the default
/// one, when the alias is a plain TOML string (no `"`, no `\`, no control
/// character but tab).
pub proof fn lemma_config_text_sets_default(alias: Seq<char>)
    requires
        forall|i: int| 0 <= i < alias.len() ==> basic_string_char(#[trigger] alias[i]),
    ensures
        simple_assignment("default_key = \""@ + alias + "\"\n"@, "default_key"@, alias),
{
    reveal_strlit("default_key = \"");
    reveal_strlit("default_key");
    reveal_strlit(" = \"");
    assert("default_key = \""@ =~= "default_key"@ + " = \""@);
    let k = "default_key"@;
    assert forall|i: int| 0 <= i < k.len() implies {
        let c = #[trigger] k[i];
        ('A' <= c && c <= 'Z') || ('a' <= c && c <= 'z') || ('0' <= c && c <= '9') || c == '_'
            || c == '-'
    } by {}
    assert(bare_key(k));
    assert("default_key = \""@ + alias + "\"\n"@ =~= simple_document(k, alias));
}

} // verus!
