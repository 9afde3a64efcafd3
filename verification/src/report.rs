//! What the commands print: the listing of the key store and an extracted
//! message.
use vstd::prelude::*;
use vstd::utf8::{decode_utf8, valid_utf8};

use crate::text::{digit_text, hex_digit};

verus! {

/// The line listing `alias`: marked with `*` when it is the default alias.
pub open spec fn list_line(alias: Seq<char>, default_alias: Seq<char>) -> Seq<char> {
    if alias == default_alias {
        "* "@ + alias
    } else {
        "  "@ + alias
    }
}

/// A listing line is the alias behind a two-character margin, and the
/// margin is `* ` exactly when the alias is the default one (`  ` otherwise).
pub proof fn lemma_list_line_marks(alias: Seq<char>, default_alias: Seq<char>)
    ensures
        list_line(alias, default_alias).len() == alias.len() + 2,
        list_line(alias, default_alias)[0] == '*' <==> alias == default_alias,
        list_line(alias, default_alias)[0] == '*' || list_line(alias, default_alias)[0] == ' ',
        list_line(alias, default_alias)[1] == ' ',
        list_line(alias, default_alias).subrange(2, alias.len() + 2int) == alias,
{
    reveal_strlit("* ");
    reveal_strlit("  ");
    assert(list_line(alias, default_alias).subrange(2, alias.len() + 2int) =~= alias);
}

/// The lines listing the key store's `aliases`, the default one (the empty
/// alias when none is set) marked; a single line saying so when the store
/// is empty.
pub fn list_lines(aliases: &Vec<String>, default_alias: Option<String>) -> (lines: Vec<String>)
    ensures
        aliases@.len() == 0 ==> lines@.len() == 1 && lines@[0]@ == "No keys stored."@,
        aliases@.len() > 0 ==> {
            &&& lines@.len() == aliases@.len()
            &&& forall|i: int|
                0 <= i < aliases@.len() ==> #[trigger] lines@[i]@ == list_line(
                    aliases@[i]@,
                    match default_alias {
                        Some(d) => d@,
                        None => Seq::<char>::empty(),
                    },
                )
            &&& forall|i: int|
                0 <= i < aliases@.len() ==> {
                    let d = match default_alias {
                        Some(d) => d@,
                        None => Seq::<char>::empty(),
                    };
                    &&& (#[trigger] lines@[i])@.len() == aliases@[i]@.len() + 2
                    &&& (lines@[i]@[0] == '*' <==> aliases@[i]@ == d)
                    &&& (lines@[i]@[0] == '*' || lines@[i]@[0] == ' ')
                    &&& lines@[i]@[1] == ' '
                    &&& lines@[i]@.subrange(2, lines@[i]@.len() as int) == aliases@[i]@
                }
        },
{
    let mut lines: Vec<String> = Vec::new();
    if aliases.len() == 0 {
        lines.push(String::from_str("No keys stored."));
        return lines;
    }
    let default = match default_alias {
        Some(d) => d,
        None => String::new(),
    };
    proof {
        assert forall|a: Seq<char>| #[trigger] list_line(a, default@).len() == a.len() + 2 && (list_line(a, default@)[0] == '*' <==> a == default@) && (list_line(a, default@)[0] == '*' || list_line(a, default@)[0] == ' ') && list_line(a, default@)[1] == ' ' && list_line(a, default@).subrange(2, a.len() + 2int) == a by {
            lemma_list_line_marks(a, default@);
        }
    }
    let mut i: usize = 0;
    while i < aliases.len()
        invariant
            i <= aliases@.len(),
            lines@.len() == i,
            forall|k: int| 0 <= k < i ==> #[trigger] lines@[k]@ == list_line(aliases@[k]@, default@),
        decreases aliases@.len() - i,
    {
        let mut line = if aliases[i] == default {
            String::from_str("* ")
        } else {
            String::from_str("  ")
        };
        line.append(aliases[i].as_str());
        lines.push(line);
        i = i + 1;
    }
    lines
}

/// Two lowercase hexadecimal digits per byte.
pub open spec fn hex_of(bytes: Seq<u8>) -> Seq<char>
    decreases bytes.len(),
{
    if bytes.len() == 0 {
        Seq::empty()
    } else {
        hex_of(bytes.drop_last()) + seq![hex_digit(bytes.last() / 16), hex_digit(bytes.last() % 16)]
    }
}

/// The hexadecimal text of some bytes has two digits per byte, in the order
/// of the bytes: the high nibble, then the low one.
pub proof fn lemma_hex_of_digits(bytes: Seq<u8>)
    ensures
        hex_of(bytes).len() == 2 * bytes.len(),
        forall|i: int|
            0 <= i < bytes.len() ==> hex_of(bytes)[2 * i] == hex_digit(#[trigger] bytes[i] / 16)
                && hex_of(bytes)[2 * i + 1] == hex_digit(bytes[i] % 16),
    decreases bytes.len(),
{
    if bytes.len() > 0 {
        let p = bytes.drop_last();
        lemma_hex_of_digits(p);
        assert forall|i: int|
            0 <= i < bytes.len() implies hex_of(bytes)[2 * i] == hex_digit(#[trigger] bytes[i] / 16)
                && hex_of(bytes)[2 * i + 1] == hex_digit(bytes[i] % 16) by {
            if i < p.len() {
                assert(bytes[i] == p[i]);
            }
        }
    }
}

/// How an extracted message is shown: as text when it is UTF-8, in
/// hexadecimal otherwise.
pub open spec fn message_display(message: Seq<u8>) -> Seq<char> {
    if valid_utf8(message) {
        decode_utf8(message)
    } else {
        "(non-UTF-8, hex) "@ + hex_of(message)
    }
}

/// `std::str::from_utf8`.
///
/// Trusted: it succeeds exactly on well-formed UTF-8 (as `vstd::utf8`
/// defines it: no overlong forms, no surrogates, nothing above U+10FFFF),
/// and the text is then the decoding of the bytes.
#[verifier::external_body]
fn utf8_text<'a>(bytes: &'a [u8]) -> (r: Option<&'a str>)
    ensures
        r is Some <==> valid_utf8(bytes@),
        r matches Some(s) ==> s@ == decode_utf8(bytes@),
{
    std::str::from_utf8(bytes).ok()
}

/// The text shown for an extracted message: the message itself when it is
/// UTF-8, else `(non-UTF-8, hex) ` and its bytes in lowercase hexadecimal.
pub fn message_text(message: &[u8]) -> (text: String)
    ensures
        text@ == message_display(message@),
{
    match utf8_text(message) {
        Some(s) => String::from_str(s),
        None => {
            let mut text = String::from_str("(non-UTF-8, hex) ");
            let ghost head = text@;
            let mut i: usize = 0;
            assert(message@.subrange(0, 0) =~= Seq::<u8>::empty());
            while i < message.len()
                invariant
                    i <= message@.len(),
                    text@ == head + hex_of(message@.subrange(0, i as int)),
                decreases message@.len() - i,
            {
                let b = message[i];
                text.append(digit_text(b / 16));
                text.append(digit_text(b % 16));
                proof {
                    assert(message@.subrange(0, i + 1).drop_last() =~= message@.subrange(0, i as int));
                }
                i = i + 1;
            }
            assert(message@.subrange(0, message@.len() as int) =~= message@);
            text
        },
    }
}

} // verus!
