//! Entry key codec: a character identifier plus two single-digit indices,
//! packed into a fixed ten-character string.

use vstd::prelude::*;

use crate::text::push_char;

verus! {

/// A composite lookup key: a character identifier of exactly six characters
/// with a fixed `'0'` placeholder at position four, a costume index, and an
/// alternate-palette index, both single decimal digits.
#[derive(Debug)]
pub struct EntryKey {
    pub character_id: String,
    pub costume_index: u8,
    pub alt_index: u8,
}

/// The mathematical value of an [`EntryKey`].
pub ghost struct KeyModel {
    pub id: Seq<char>,
    pub costume: u8,
    pub alt: u8,
}

impl View for EntryKey {
    type V = KeyModel;

    open spec fn view(&self) -> KeyModel {
        KeyModel { id: self.character_id@, costume: self.costume_index, alt: self.alt_index }
    }
}

/// The key invariant: six identifier characters with `'0'` at position
/// four, and both indices in 0 to 9.
pub open spec fn key_valid(k: KeyModel) -> bool {
    &&& k.id.len() == 6
    &&& k.id[4] == '0'
    &&& k.costume <= 9
    &&& k.alt <= 9
}

/// The decimal digit character for a value below ten.
pub open spec fn digit_char(d: u8) -> char
    recommends
        d <= 9,
{
    (48 + d) as char
}

/// The value of one decimal digit character, if it is one.
pub open spec fn digit_val(c: char) -> Option<u8> {
    let v = c as u32;
    if 48 <= v && v <= 57 {
        Some((v - 48) as u8)
    } else {
        None
    }
}

/// The text `key_to_string` produces: identifier characters 0 to 3, the
/// costume digit, identifier character 5, the literal `col`, and the
/// alternate digit — ten characters in all.
pub open spec fn key_chars(k: KeyModel) -> Seq<char>
    recommends
        key_valid(k),
{
    k.id.subrange(0, 4) + seq![digit_char(k.costume)] + seq![k.id[5]] + seq!['c', 'o', 'l']
        + seq![digit_char(k.alt)]
}

/// What `string_to_key` returns.  Exactly ten characters are accepted, the
/// characters at positions 4 and 9 must be decimal digits, and the
/// identifier is rebuilt from positions 0 to 3 and 5 with the `'0'`
/// placeholder restored.  Positions 6 to 8 — `col` in every string the
/// encoder produces — are deliberately not checked: persisted files with
/// arbitrary filler there are accepted, matching the tooling this format
/// comes from.
pub open spec fn key_decoded(s: Seq<char>) -> Option<KeyModel> {
    if s.len() != 10 {
        None
    } else {
        match (digit_val(s[4]), digit_val(s[9])) {
            (Some(costume), Some(alt)) => Some(
                KeyModel { id: s.subrange(0, 4) + seq!['0'] + seq![s[5]], costume, alt },
            ),
            _ => None,
        }
    }
}

impl EntryKey {
    /// Whether the key invariant holds of this key.
    pub open spec fn valid(&self) -> bool {
        key_valid(self@)
    }
}

impl Clone for EntryKey {
    /// An exact copy: the clone has the same model as the value cloned.
    fn clone(&self) -> (r: Self)
        ensures
            r@ == self@,
    {
        EntryKey {
            character_id: self.character_id.clone(),
            costume_index: self.costume_index,
            alt_index: self.alt_index,
        }
    }
}

impl PartialEq for EntryKey {
    /// Two keys are equal exactly when all three fields match.
    fn eq(&self, other: &Self) -> (r: bool) {
        self.character_id == other.character_id && self.costume_index == other.costume_index
            && self.alt_index == other.alt_index
    }
}

impl vstd::std_specs::cmp::PartialEqSpecImpl for EntryKey {
    open spec fn obeys_eq_spec() -> bool {
        true
    }

    open spec fn eq_spec(&self, other: &EntryKey) -> bool {
        self@ == other@
    }
}

impl Eq for EntryKey {

}

/// Whether two keys have the same model.
pub fn key_eq(a: &EntryKey, b: &EntryKey) -> (r: bool)
    ensures
        r == (a@ == b@),
{
    let r = a.character_id.eq(&b.character_id) && a.costume_index == b.costume_index
        && a.alt_index == b.alt_index;
    proof {
        if r {
            assert(a@ == b@);
        } else {
            assert(a@ != b@) by {
                if a@ == b@ {
                    assert(a@.id == b@.id);
                }
            }
        }
    }
    r
}

/// The decimal digit character for a value below ten.
fn digit_char_exec(d: u8) -> (c: char)
    requires
        d <= 9,
    ensures
        c == digit_char(d),
{
    (48 + d) as char
}

/// The value of one decimal digit character, if it is one.
fn digit_val_exec(c: char) -> (r: Option<u8>)
    ensures
        r == digit_val(c),
{
    let v = c as u32;
    if 48 <= v && v <= 57 {
        Some((v - 48) as u8)
    } else {
        None
    }
}

/// Encodes a key as its ten-character string.  The key invariant is
/// assumed, not checked: validation is the decoder's job.
pub fn key_to_string(key: &EntryKey) -> (r: String)
    requires
        key.valid(),
    ensures
        r@ == key_chars(key@),
{
    let mut s = String::new();
    let mut i: usize = 0;
    while i < 4
        invariant
            key.valid(),
            i <= 4,
            s@ == key.character_id@.subrange(0, i as int),
        decreases 4 - i,
    {
        push_char(&mut s, key.character_id.as_str().get_char(i));
        i = i + 1;
        proof {
            assert(s@ =~= key.character_id@.subrange(0, i as int));
        }
    }
    push_char(&mut s, digit_char_exec(key.costume_index));
    push_char(&mut s, key.character_id.as_str().get_char(5));
    push_char(&mut s, 'c');
    push_char(&mut s, 'o');
    push_char(&mut s, 'l');
    push_char(&mut s, digit_char_exec(key.alt_index));
    proof {
        assert(s@ =~= key_chars(key@));
    }
    s
}

/// Decodes a ten-character string into a key, or `None` when the text is
/// not ten characters long or a digit position does not hold a digit.
pub fn string_to_key(s: &str) -> (r: Option<EntryKey>)
    ensures
        match r {
            Some(k) => key_decoded(s@) == Some(k@) && k.valid(),
            None => key_decoded(s@) is None,
        },
{
    if s.unicode_len() != 10 {
        return None;
    }
    let costume = digit_val_exec(s.get_char(4));
    let alt = digit_val_exec(s.get_char(9));
    match (costume, alt) {
        (Some(costume_index), Some(alt_index)) => {
            let mut id = String::new();
            let mut i: usize = 0;
            while i < 4
                invariant
                    s@.len() == 10,
                    i <= 4,
                    id@ == s@.subrange(0, i as int),
                decreases 4 - i,
            {
                push_char(&mut id, s.get_char(i));
                i = i + 1;
                proof {
                    assert(id@ =~= s@.subrange(0, i as int));
                }
            }
            push_char(&mut id, '0');
            push_char(&mut id, s.get_char(5));
            let k = EntryKey { character_id: id, costume_index, alt_index };
            proof {
                assert(k@.id =~= s@.subrange(0, 4) + seq!['0'] + seq![s@[5]]);
            }
            Some(k)
        },
        _ => None,
    }
}

/// Law: decoding an encoded key gives the key back, for every valid key.
pub proof fn lemma_key_round_trip(k: KeyModel)
    requires
        key_valid(k),
    ensures
        key_decoded(key_chars(k)) == Some(k),
{
    let s = key_chars(k);
    assert(s.len() == 10);
    assert(s[4] == digit_char(k.costume));
    assert(s[9] == digit_char(k.alt));
    assert(digit_val(digit_char(k.costume)) == Some(k.costume));
    assert(digit_val(digit_char(k.alt)) == Some(k.alt));
    let d = key_decoded(s).unwrap();
    assert(d.id =~= k.id);
}

/// A key the decoder hands back always satisfies the key invariant: the
/// rebuilt identifier has six characters with `'0'` at position four, and
/// both indices are digits.
pub proof fn lemma_key_decoded_valid(s: Seq<char>)
    ensures
        key_decoded(s) matches Some(k) ==> key_valid(k),
{
}

/// Law: every string whose length is not ten is rejected by the decoder.
pub proof fn lemma_key_decode_rejects_length(s: Seq<char>)
    requires
        s.len() != 10,
    ensures
        key_decoded(s) is None,
{
}

/// Law: a ten-character string whose costume or alternate position does
/// not hold a decimal digit is rejected by the decoder.
pub proof fn lemma_key_decode_rejects_bad_digit(s: Seq<char>)
    requires
        s.len() == 10,
        digit_val(s[4]) is None || digit_val(s[9]) is None,
    ensures
        key_decoded(s) is None,
{
}

/// Law: on valid keys the encoding is injective — two valid keys with the
/// same encoded string are the same key.
pub proof fn lemma_key_encoding_injective(a: KeyModel, b: KeyModel)
    requires
        key_valid(a),
        key_valid(b),
        key_chars(a) == key_chars(b),
    ensures
        a == b,
{
    lemma_key_round_trip(a);
    lemma_key_round_trip(b);
}

} // verus!
