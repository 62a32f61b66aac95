//! Base64, the form in which bytes travel inside text.
use base64::engine::general_purpose::STANDARD;
use base64::Engine;
use vstd::prelude::*;

verus! {

/// The character that stands for the six bits `v`.
pub open spec fn base64_char(v: int) -> char
    recommends
        0 <= v < 64,
{
    if v < 26 {
        (65 + v) as char
    } else if v < 52 {
        (97 + v - 26) as char
    } else if v < 62 {
        (48 + v - 52) as char
    } else if v == 62 {
        '+'
    } else {
        '/'
    }
}

/// The base64 text of `bytes`, in the standard alphabet: four characters for every three bytes, the
/// last group filled up with `=`.
pub open spec fn base64_text(bytes: Seq<u8>) -> Seq<char>
    decreases bytes.len(),
{
    if bytes.len() == 0 {
        seq![]
    } else if bytes.len() == 1 {
        seq![base64_char(bytes[0] as int / 4), base64_char(bytes[0] as int % 4 * 16), '=', '=']
    } else if bytes.len() == 2 {
        seq![
            base64_char(bytes[0] as int / 4),
            base64_char(bytes[0] as int % 4 * 16 + bytes[1] as int / 16),
            base64_char(bytes[1] as int % 16 * 4),
            '=',
        ]
    } else {
        seq![
            base64_char(bytes[0] as int / 4),
            base64_char(bytes[0] as int % 4 * 16 + bytes[1] as int / 16),
            base64_char(bytes[1] as int % 16 * 4 + bytes[2] as int / 64),
            base64_char(bytes[2] as int % 64),
        ] + base64_text(bytes.skip(3))
    }
}

/// `Engine::encode` of the `base64` crate, with its engine `STANDARD`, writes the base64 text of
/// the bytes, padded.
#[verifier::external_body]
pub(crate) fn base64_encode(bytes: &[u8]) -> (r: String)
    ensures
        r@ == base64_text(bytes@),
{
    STANDARD.encode(bytes)
}

/// Whether `text` is the base64 text of some bytes.
pub open spec fn is_base64(text: Seq<char>) -> bool {
    exists|bytes: Seq<u8>| #[trigger] base64_text(bytes) == text
}

/// `Engine::decode` of the `base64` crate, with its engine `STANDARD`, accepts exactly the padded
/// texts that encoding gives, and returns the bytes that the text was made of.
#[verifier::external_body]
pub(crate) fn base64_decode(text: &str) -> (r: Option<Vec<u8>>)
    ensures
        r is Some <==> is_base64(text@),
        r matches Some(bytes) ==> base64_text(bytes@) == text@,
{
    STANDARD.decode(text).ok()
}

proof fn lemma_base64_char_injective(v: int, w: int)
    requires
        0 <= v < 64,
        0 <= w < 64,
        base64_char(v) == base64_char(w),
    ensures
        v == w,
{
}

/// No six bits are written as the filler.
proof fn lemma_base64_char_is_no_filler(v: int)
    requires
        0 <= v < 64,
    ensures
        base64_char(v) != '=',
{
}

/// A base64 text has four characters for every three bytes, a started group counting whole.
pub proof fn law_base64_length(bytes: Seq<u8>)
    ensures
        base64_text(bytes).len() == (bytes.len() + 2) / 3 * 4,
    decreases bytes.len(),
{
    if bytes.len() > 2 {
        law_base64_length(bytes.skip(3));
    }
}

/// Different bytes have different base64 texts, so that what is decoded is what was encoded.
pub proof fn law_base64_injective(a: Seq<u8>, b: Seq<u8>)
    requires
        base64_text(a) == base64_text(b),
    ensures
        a == b,
    decreases a.len(),
{
    law_base64_length(a);
    law_base64_length(b);
    let s = base64_text(a);
    let t = base64_text(b);
    if a.len() == 0 {
        assert(a =~= b);
    } else {
        let (x, y) = (a[0] as int, b[0] as int);
        assert(s[0] == base64_char(x / 4));
        assert(t[0] == base64_char(y / 4));
        lemma_base64_char_injective(x / 4, y / 4);
        let x1 = if a.len() > 1 {
            a[1] as int
        } else {
            0
        };
        let y1 = if b.len() > 1 {
            b[1] as int
        } else {
            0
        };
        assert(s[1] == base64_char(x % 4 * 16 + x1 / 16));
        assert(t[1] == base64_char(y % 4 * 16 + y1 / 16));
        lemma_base64_char_injective(x % 4 * 16 + x1 / 16, y % 4 * 16 + y1 / 16);
        assert(x == y);
        let x2 = if a.len() > 2 {
            a[2] as int
        } else {
            0
        };
        let y2 = if b.len() > 2 {
            b[2] as int
        } else {
            0
        };
        lemma_base64_char_is_no_filler(x1 % 16 * 4 + x2 / 64);
        lemma_base64_char_is_no_filler(y1 % 16 * 4 + y2 / 64);
        lemma_base64_char_is_no_filler(x2 % 64);
        lemma_base64_char_is_no_filler(y2 % 64);
        assert(a.len() > 1 ==> s[2] == base64_char(x1 % 16 * 4 + x2 / 64));
        assert(b.len() > 1 ==> t[2] == base64_char(y1 % 16 * 4 + y2 / 64));
        assert((a.len() > 1) == (b.len() > 1));
        assert(a.len() > 2 ==> s[3] == base64_char(x2 % 64));
        assert(b.len() > 2 ==> t[3] == base64_char(y2 % 64));
        assert((a.len() > 2) == (b.len() > 2));
        if a.len() > 1 {
            lemma_base64_char_injective(x1 % 16 * 4 + x2 / 64, y1 % 16 * 4 + y2 / 64);
            assert(x1 == y1);
        }
        if a.len() > 2 {
            lemma_base64_char_injective(x2 % 64, y2 % 64);
            assert(x2 == y2);
            assert(s.skip(4) =~= base64_text(a.skip(3)));
            assert(t.skip(4) =~= base64_text(b.skip(3)));
            law_base64_injective(a.skip(3), b.skip(3));
            assert(a =~= seq![a[0], a[1], a[2]] + a.skip(3));
            assert(b =~= seq![b[0], b[1], b[2]] + b.skip(3));
        }
        assert(a =~= b);
    }
}

/// A base64 text is made of letters, digits, `+`, `/` and `=`, so that no character of it means
/// anything to a terminal.
pub proof fn law_base64_is_plain(bytes: Seq<u8>)
    ensures
        forall|i: int|
            0 <= i < base64_text(bytes).len() ==> {
                let c = #[trigger] base64_text(bytes)[i];
                ('A' <= c <= 'Z') || ('a' <= c <= 'z') || ('0' <= c <= '9') || c == '+' || c == '/'
                    || c == '='
            },
        !base64_text(bytes).contains('\x1b'),
    decreases bytes.len(),
{
    let t = base64_text(bytes);
    if bytes.len() > 2 {
        let rest = base64_text(bytes.skip(3));
        law_base64_is_plain(bytes.skip(3));
        assert forall|i: int| 0 <= i < t.len() implies ({
            let c = #[trigger] t[i];
            ('A' <= c <= 'Z') || ('a' <= c <= 'z') || ('0' <= c <= '9') || c == '+' || c == '/'
                || c == '='
        }) by {
            if i >= 4 {
                assert(t[i] == rest[i - 4]);
            }
        }
    }
    if t.contains('\x1b') {
        let i = choose|i: int| 0 <= i < t.len() && t[i] == '\x1b';
        assert(t[i] == '\x1b');
    }
}

} // verus!
