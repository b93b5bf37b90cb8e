//! Russian (JCUKEN) keyboard layout: which Cyrillic letter a Latin key
//! produces, and its two-byte UTF-8 encoding.
use vstd::prelude::*;

verus! {

/// The lowercase Cyrillic letter that a Latin key produces in the
/// Russian layout, as a Unicode code point; `None` for a key that
/// the layout leaves alone.
pub open spec fn cyrillic_letter(c: u8) -> Option<u32> {
    if c == 0x71 { Some(0x0439) }        // q
    else if c == 0x77 { Some(0x0446) }   // w
    else if c == 0x65 { Some(0x0443) }   // e
    else if c == 0x72 { Some(0x043A) }   // r
    else if c == 0x74 { Some(0x0435) }   // t
    else if c == 0x79 { Some(0x043D) }   // y
    else if c == 0x75 { Some(0x0433) }   // u
    else if c == 0x69 { Some(0x0448) }   // i
    else if c == 0x6F { Some(0x0449) }   // o
    else if c == 0x70 { Some(0x0437) }   // p
    else if c == 0x5B { Some(0x0445) }   // [
    else if c == 0x5D { Some(0x044A) }   // ]
    else if c == 0x61 { Some(0x0444) }   // a
    else if c == 0x73 { Some(0x044B) }   // s
    else if c == 0x64 { Some(0x0432) }   // d
    else if c == 0x66 { Some(0x0430) }   // f
    else if c == 0x67 { Some(0x043F) }   // g
    else if c == 0x68 { Some(0x0440) }   // h
    else if c == 0x6A { Some(0x043E) }   // j
    else if c == 0x6B { Some(0x043B) }   // k
    else if c == 0x6C { Some(0x0434) }   // l
    else if c == 0x3B { Some(0x0436) }   // ;
    else if c == 0x27 { Some(0x044D) }   // '
    else if c == 0x7A { Some(0x044F) }   // z
    else if c == 0x78 { Some(0x0447) }   // x
    else if c == 0x63 { Some(0x0441) }   // c
    else if c == 0x76 { Some(0x043C) }   // v
    else if c == 0x62 { Some(0x0438) }   // b
    else if c == 0x6E { Some(0x0442) }   // n
    else if c == 0x6D { Some(0x044C) }   // m
    else if c == 0x2C { Some(0x0431) }   // ,
    else if c == 0x2E { Some(0x044E) }   // .
    else if c == 0x60 { Some(0x0451) }   // `
    else { None }
}

/// The two-byte UTF-8 encoding of a code point in U+0080..U+07FF.
pub open spec fn utf8_pair(cp: u32) -> (u8, u8) {
    ((0xC0 + cp / 64) as u8, (0x80 + cp % 64) as u8)
}

/// What `latin_to_cyrillic` returns for a key: the UTF-8 bytes of its
/// Cyrillic letter, or `(0, 0)` for a key with no mapping.
pub open spec fn cyrillic_bytes(c: u8) -> (u8, u8) {
    match cyrillic_letter(c) {
        Some(cp) => utf8_pair(cp),
        None => (0, 0),
    }
}

/// Map a Latin ASCII character to its Russian keyboard layout equivalent.
/// Returns the Cyrillic UTF-8 bytes (2 bytes); `(0, 0)` if the character
/// has no Russian mapping.
pub fn latin_to_cyrillic(c: u8) -> (r: (u8, u8))
    ensures
        r == cyrillic_bytes(c),
{
    match c {
        // Row 1: q w e r t y u i o p [ ]
        0x71 => (0xD0, 0xB9),
        0x77 => (0xD1, 0x86),
        0x65 => (0xD1, 0x83),
        0x72 => (0xD0, 0xBA),
        0x74 => (0xD0, 0xB5),
        0x79 => (0xD0, 0xBD),
        0x75 => (0xD0, 0xB3),
        0x69 => (0xD1, 0x88),
        0x6F => (0xD1, 0x89),
        0x70 => (0xD0, 0xB7),
        0x5B => (0xD1, 0x85),
        0x5D => (0xD1, 0x8A),
        // Row 2: a s d f g h j k l ; '
        0x61 => (0xD1, 0x84),
        0x73 => (0xD1, 0x8B),
        0x64 => (0xD0, 0xB2),
        0x66 => (0xD0, 0xB0),
        0x67 => (0xD0, 0xBF),
        0x68 => (0xD1, 0x80),
        0x6A => (0xD0, 0xBE),
        0x6B => (0xD0, 0xBB),
        0x6C => (0xD0, 0xB4),
        0x3B => (0xD0, 0xB6),
        0x27 => (0xD1, 0x8D),
        // Row 3: z x c v b n m , .
        0x7A => (0xD1, 0x8F),
        0x78 => (0xD1, 0x87),
        0x63 => (0xD1, 0x81),
        0x76 => (0xD0, 0xBC),
        0x62 => (0xD0, 0xB8),
        0x6E => (0xD1, 0x82),
        0x6D => (0xD1, 0x8C),
        0x2C => (0xD0, 0xB1),
        0x2E => (0xD1, 0x8E),
        // The backquote key gives the letter yo.
        0x60 => (0xD1, 0x91),
        _ => (0, 0),
    }
}

/// Whether a byte is the lead byte of a 2-byte UTF-8 sequence of the
/// Cyrillic block U+0400..U+047F.
pub open spec fn spec_is_cyrillic_first(b: u8) -> bool {
    0xD0 <= b <= 0xD1
}

/// Check if a byte is the first byte of a 2-byte Cyrillic UTF-8 sequence.
pub fn is_cyrillic_first(b: u8) -> (r: bool)
    ensures
        r == spec_is_cyrillic_first(b),
{
    b >= 0xD0 && b <= 0xD1
}


/// Whether a code point is a lowercase letter of the Russian alphabet:
/// U+0430..U+044F, or U+0451 (yo).
pub open spec fn is_russian_lowercase(cp: u32) -> bool {
    (0x0430 <= cp <= 0x044F) || cp == 0x0451
}

/// The code point that a 2-byte UTF-8 sequence encodes.
pub open spec fn utf8_pair_decode(lead: u8, cont: u8) -> int {
    (lead - 0xC0) * 64 + (cont - 0x80)
}

/// Every key of the layout yields a lowercase Russian letter, encoded as a
/// well-formed 2-byte UTF-8 sequence whose lead byte `is_cyrillic_first`
/// recognises and which decodes back to that letter; every other byte
/// yields `(0, 0)`, whose first byte is no Cyrillic lead byte.
pub proof fn lemma_mapping_is_cyrillic_utf8(c: u8)
    ensures
        match cyrillic_letter(c) {
            Some(cp) => {
                let (lead, cont) = cyrillic_bytes(c);
                &&& is_russian_lowercase(cp)
                &&& spec_is_cyrillic_first(lead)
                &&& 0x80 <= cont <= 0xBF
                &&& utf8_pair_decode(lead, cont) == cp
            },
            None => cyrillic_bytes(c) == (0u8, 0u8) && !spec_is_cyrillic_first(cyrillic_bytes(c).0),
        },
{
}

/// Two different keys never produce the same letter.
pub proof fn lemma_mapping_injective(c1: u8, c2: u8)
    requires
        cyrillic_letter(c1) is Some,
        cyrillic_letter(c2) is Some,
        c1 != c2,
    ensures
        cyrillic_letter(c1) != cyrillic_letter(c2),
        cyrillic_bytes(c1) != cyrillic_bytes(c2),
{
    lemma_mapping_is_cyrillic_utf8(c1);
    lemma_mapping_is_cyrillic_utf8(c2);
}

/// Every lowercase Russian letter can be typed: the key returned produces it.
pub proof fn lemma_mapping_covers_alphabet(cp: u32) -> (c: u8)
    requires
        is_russian_lowercase(cp),
    ensures
        cyrillic_letter(c) == Some(cp),
{
    if cp == 0x0439 { 0x71 }
    else if cp == 0x0446 { 0x77 }
    else if cp == 0x0443 { 0x65 }
    else if cp == 0x043A { 0x72 }
    else if cp == 0x0435 { 0x74 }
    else if cp == 0x043D { 0x79 }
    else if cp == 0x0433 { 0x75 }
    else if cp == 0x0448 { 0x69 }
    else if cp == 0x0449 { 0x6F }
    else if cp == 0x0437 { 0x70 }
    else if cp == 0x0445 { 0x5B }
    else if cp == 0x044A { 0x5D }
    else if cp == 0x0444 { 0x61 }
    else if cp == 0x044B { 0x73 }
    else if cp == 0x0432 { 0x64 }
    else if cp == 0x0430 { 0x66 }
    else if cp == 0x043F { 0x67 }
    else if cp == 0x0440 { 0x68 }
    else if cp == 0x043E { 0x6A }
    else if cp == 0x043B { 0x6B }
    else if cp == 0x0434 { 0x6C }
    else if cp == 0x0436 { 0x3B }
    else if cp == 0x044D { 0x27 }
    else if cp == 0x044F { 0x7A }
    else if cp == 0x0447 { 0x78 }
    else if cp == 0x0441 { 0x63 }
    else if cp == 0x043C { 0x76 }
    else if cp == 0x0438 { 0x62 }
    else if cp == 0x0442 { 0x6E }
    else if cp == 0x044C { 0x6D }
    else if cp == 0x0431 { 0x2C }
    else if cp == 0x044E { 0x2E }
    else { 0x60 }
}


/// The layout key by key, row by row as on the keyboard: the top row
/// q w e r t y u i o p [ ] gives the letters U+0439 U+0446 U+0443 U+043A
/// U+0435 U+043D U+0433 U+0448 U+0449 U+0437 U+0445 U+044A, and so on; no
/// other byte has a letter; and the bytes returned for a letter `cp` are its
/// UTF-8 lead byte 0xC0 + cp / 64 and continuation byte 0x80 + cp mod 64.
pub proof fn lemma_layout_rows(c: u8)
    ensures
        // Top row: q w e r t y u i o p [ ]
        cyrillic_letter(0x71u8) == Some(0x0439u32),
        cyrillic_letter(0x77u8) == Some(0x0446u32),
        cyrillic_letter(0x65u8) == Some(0x0443u32),
        cyrillic_letter(0x72u8) == Some(0x043Au32),
        cyrillic_letter(0x74u8) == Some(0x0435u32),
        cyrillic_letter(0x79u8) == Some(0x043Du32),
        cyrillic_letter(0x75u8) == Some(0x0433u32),
        cyrillic_letter(0x69u8) == Some(0x0448u32),
        cyrillic_letter(0x6Fu8) == Some(0x0449u32),
        cyrillic_letter(0x70u8) == Some(0x0437u32),
        cyrillic_letter(0x5Bu8) == Some(0x0445u32),
        cyrillic_letter(0x5Du8) == Some(0x044Au32),
        // Home row: a s d f g h j k l ; '
        cyrillic_letter(0x61u8) == Some(0x0444u32),
        cyrillic_letter(0x73u8) == Some(0x044Bu32),
        cyrillic_letter(0x64u8) == Some(0x0432u32),
        cyrillic_letter(0x66u8) == Some(0x0430u32),
        cyrillic_letter(0x67u8) == Some(0x043Fu32),
        cyrillic_letter(0x68u8) == Some(0x0440u32),
        cyrillic_letter(0x6Au8) == Some(0x043Eu32),
        cyrillic_letter(0x6Bu8) == Some(0x043Bu32),
        cyrillic_letter(0x6Cu8) == Some(0x0434u32),
        cyrillic_letter(0x3Bu8) == Some(0x0436u32),
        cyrillic_letter(0x27u8) == Some(0x044Du32),
        // Bottom row: z x c v b n m , .
        cyrillic_letter(0x7Au8) == Some(0x044Fu32),
        cyrillic_letter(0x78u8) == Some(0x0447u32),
        cyrillic_letter(0x63u8) == Some(0x0441u32),
        cyrillic_letter(0x76u8) == Some(0x043Cu32),
        cyrillic_letter(0x62u8) == Some(0x0438u32),
        cyrillic_letter(0x6Eu8) == Some(0x0442u32),
        cyrillic_letter(0x6Du8) == Some(0x044Cu32),
        cyrillic_letter(0x2Cu8) == Some(0x0431u32),
        cyrillic_letter(0x2Eu8) == Some(0x044Eu32),
        // The backquote key: `
        cyrillic_letter(0x60u8) == Some(0x0451u32),
        cyrillic_letter(c) is Some <==> (
            c == 0x71 || c == 0x77 || c == 0x65 || c == 0x72 || c == 0x74 || c == 0x79 ||
            c == 0x75 || c == 0x69 || c == 0x6F || c == 0x70 || c == 0x5B || c == 0x5D ||
            c == 0x61 || c == 0x73 || c == 0x64 || c == 0x66 || c == 0x67 || c == 0x68 ||
            c == 0x6A || c == 0x6B || c == 0x6C || c == 0x3B || c == 0x27 || c == 0x7A ||
            c == 0x78 || c == 0x63 || c == 0x76 || c == 0x62 || c == 0x6E || c == 0x6D ||
            c == 0x2C || c == 0x2E || c == 0x60
        ),
        cyrillic_letter(c) is Some ==> {
            let cp = cyrillic_letter(c).unwrap();
            &&& cyrillic_bytes(c).0 as int == 0xC0 + cp / 64
            &&& cyrillic_bytes(c).1 as int == 0x80 + cp % 64
        },
{
}


/// The lead bytes of 2-byte Cyrillic UTF-8 sequences are exactly 0xD0 and 0xD1.
pub proof fn lemma_cyrillic_first_bytes(b: u8)
    ensures
        spec_is_cyrillic_first(b) <==> (b == 0xD0 || b == 0xD1),
{
}

} // verus!
