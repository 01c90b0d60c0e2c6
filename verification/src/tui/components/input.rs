use vstd::prelude::*;
use vstd::utf8::{
    decode_first_scalar,
    encode_utf8,
    is_char_boundary,
    pop_first_scalar,
};

verus! {

/// The UTF-8 bytes of a piece of text.
pub open spec fn utf8_of(text: Seq<char>) -> Seq<u8> {
    encode_utf8(text)
}

/// `String::insert`: the encoding of `ch` goes into the string's bytes at
/// byte offset `idx`. The standard library panics where `idx` is not on a
/// character boundary, which `requires` rules out.
#[verifier::external_body]
fn string_insert(s: &mut String, idx: usize, ch: char)
    requires
        is_char_boundary(utf8_of(old(s)@), idx as int),
    ensures
        utf8_of(final(s)@) == utf8_of(old(s)@).take(idx as int) + utf8_of(seq![ch])
            + utf8_of(old(s)@).skip(idx as int),
{
    s.insert(idx, ch);
}

/// `String::remove`: takes out the character whose encoding starts at byte
/// offset `idx` and returns it. The standard library panics where `idx` is
/// past the last character or not on a boundary, which `requires` rules out.
#[verifier::external_body]
fn string_remove(s: &mut String, idx: usize) -> (removed: char)
    requires
        idx < utf8_of(old(s)@).len(),
        is_char_boundary(utf8_of(old(s)@), idx as int),
    ensures
        removed as u32 == decode_first_scalar(utf8_of(old(s)@).skip(idx as int)),
        utf8_of(final(s)@) == utf8_of(old(s)@).take(idx as int) + pop_first_scalar(
            utf8_of(old(s)@).skip(idx as int),
        ),
{
    s.remove(idx)
}

/// Typing is allowed where the cursor is on a character boundary (and can
/// still move right).
pub open spec fn can_type(s: InputState) -> bool {
    &&& is_char_boundary(utf8_of(s.value@), s.cursor as int)
    &&& s.cursor < usize::MAX
}

/// Deleting is allowed where the cursor is at the start, or one byte right of
/// the start of a character.
pub open spec fn can_delete(s: InputState) -> bool {
    s.cursor > 0 ==> s.cursor - 1 < utf8_of(s.value@).len() && is_char_boundary(
        utf8_of(s.value@),
        s.cursor - 1,
    )
}

/// `after` is `before` with `ch` typed at the cursor: its encoding goes in at
/// the cursor, and the cursor moves one byte to the right.
pub open spec fn typed_into(before: InputState, ch: char, after: InputState) -> bool {
    &&& utf8_of(after.value@) == utf8_of(before.value@).take(before.cursor as int) + utf8_of(
        seq![ch],
    ) + utf8_of(before.value@).skip(before.cursor as int)
    &&& after.cursor == before.cursor + 1
}

/// `after` is `before` with the character that starts one byte left of the
/// cursor deleted and the cursor one byte to the left; at the start nothing
/// changes.
pub open spec fn deleted_from(before: InputState, after: InputState) -> bool {
    if before.cursor == 0 {
        after == before
    } else {
        &&& utf8_of(after.value@) == utf8_of(before.value@).take(before.cursor - 1)
            + pop_first_scalar(utf8_of(before.value@).skip(before.cursor - 1))
        &&& after.cursor == before.cursor - 1
    }
}

/// A one-line text field: its text and the cursor, a byte offset into it.
pub struct InputState {
    pub value: String,
    pub cursor: usize,
}

impl InputState {
    /// The number of bytes of the text.
    pub open spec fn byte_len(&self) -> nat {
        utf8_of(self.value@).len()
    }

    /// The cursor stands inside the text or right after it.
    pub open spec fn well_formed(&self) -> bool {
        self.cursor <= self.byte_len()
    }

    /// The cursor one byte to the left, unless it is at the start.
    pub open spec fn after_cursor_left(self) -> InputState {
        InputState { cursor: if self.cursor > 0 { (self.cursor - 1) as usize } else { 0 }, ..self }
    }

    /// The cursor one byte to the right, unless it is at the end of the text.
    pub open spec fn after_cursor_right(self) -> InputState {
        InputState {
            cursor: if self.cursor < self.byte_len() {
                (self.cursor + 1) as usize
            } else {
                self.cursor
            },
            ..self
        }
    }

    /// An empty field with the cursor at its start.
    pub fn new() -> (s: Self)
        ensures
            s.value@ == Seq::<char>::empty(),
            s.cursor == 0,
            s.well_formed(),
    {
        InputState { value: String::new(), cursor: 0 }
    }

    /// Empties the field.
    pub fn clear(&mut self)
        ensures
            final(self).value@ == Seq::<char>::empty(),
            final(self).cursor == 0,
            final(self).well_formed(),
    {
        self.value = String::new();
        self.cursor = 0;
    }

    /// The cursor one byte to the left, unless it is at the start.
    pub fn cursor_left(&mut self)
        ensures
            *final(self) == old(self).after_cursor_left(),
            old(self).well_formed() ==> final(self).well_formed(),
    {
        if self.cursor > 0 {
            self.cursor -= 1;
        }
    }

    /// The cursor one byte to the right, unless it is at the end of the text.
    pub fn cursor_right(&mut self)
        ensures
            *final(self) == old(self).after_cursor_right(),
            old(self).well_formed() ==> final(self).well_formed(),
    {
        broadcast use vstd::slice::group_slice_axioms;

        let byte_len = self.value.as_str().as_bytes().len();
        if self.cursor < byte_len {
            self.cursor += 1;
        }
    }

    /// Puts `symbol` into the text at the cursor and moves the cursor one
    /// byte to the right.
    pub fn add_symbol(&mut self, symbol: char)
        requires
            can_type(*old(self)),
        ensures
            typed_into(*old(self), symbol, *final(self)),
            old(self).well_formed() ==> final(self).well_formed(),
    {
        proof {
            vstd::utf8::encode_utf8_valid_utf8(self.value@);
            lemma_boundary_within(utf8_of(self.value@), self.cursor as int);
            lemma_single_char_encoding(symbol);
        }
        string_insert(&mut self.value, self.cursor, symbol);
        self.cursor += 1;
    }

    /// Takes out the character whose encoding starts one byte left of the
    /// cursor and moves the cursor one byte to the left; does nothing with
    /// the cursor at the start.
    pub fn remove_symbol(&mut self)
        requires
            can_delete(*old(self)),
        ensures
            deleted_from(*old(self), *final(self)),
            old(self).well_formed() ==> final(self).well_formed(),
    {
        if self.cursor > 0 {
            proof {
                vstd::utf8::encode_utf8_valid_utf8(self.value@);
                lemma_rest_after_boundary(utf8_of(self.value@), self.cursor - 1);
            }
            string_remove(&mut self.value, self.cursor - 1);
            self.cursor -= 1;
        }
    }
}

/// Typing a character and then deleting gives back the field as it was: the
/// deletion is allowed, and it restores both the text and the cursor.
pub proof fn lemma_delete_undoes_type(
    before: InputState,
    ch: char,
    typed: InputState,
    deleted: InputState,
)
    requires
        can_type(before),
        typed_into(before, ch, typed),
        deleted_from(typed, deleted),
    ensures
        can_delete(typed),
        deleted.value@ == before.value@,
        deleted.cursor == before.cursor,
{
    let b = utf8_of(before.value@);
    let c = before.cursor as int;
    let e = utf8_of(seq![ch]);
    let rest = b.skip(c);
    let b1 = utf8_of(typed.value@);
    vstd::utf8::encode_utf8_valid_utf8(before.value@);
    vstd::utf8::encode_utf8_valid_utf8(typed.value@);
    lemma_boundary_within(b, c);
    lemma_single_char_encoding(ch);
    vstd::utf8::encode_utf8_first_scalar(seq![ch]);
    assert(e.len() == vstd::utf8::encode_scalar(ch as u32).len()) by {
        reveal_with_fuel(encode_utf8, 2);
        assert(seq![ch].drop_first() =~= Seq::<char>::empty());
    }
    let x = e + rest;
    assert(b1 =~= b.take(c) + x);
    assert(b1[c] == e[0]);
    vstd::utf8::is_char_boundary_iff_not_is_continuation_byte(b1, c);
    assert(b1.skip(c) =~= x);
    lemma_first_scalar_of_prefix(e, rest);
    assert(vstd::utf8::pop_first_scalar(x) =~= rest);
    assert(b1.take(c) =~= b.take(c));
    assert(b.take(c) + rest =~= b);
    assert(utf8_of(deleted.value@) == b);
    vstd::utf8::encode_utf8_decode_utf8(before.value@);
    vstd::utf8::encode_utf8_decode_utf8(deleted.value@);
}

/// Bytes that start with the encoding `e` of one character decode to that
/// character first, and its encoding is as long as `e`.
proof fn lemma_first_scalar_of_prefix(e: Seq<u8>, rest: Seq<u8>)
    requires
        vstd::utf8::valid_first_scalar(e),
        vstd::utf8::length_of_first_scalar(e) == e.len(),
    ensures
        vstd::utf8::decode_first_scalar(e + rest) == vstd::utf8::decode_first_scalar(e),
        vstd::utf8::length_of_first_scalar(e + rest) == e.len(),
        !vstd::utf8::is_continuation_byte(e[0]),
{
    let x = e + rest;
    assert(x[0] == e[0]);
    if e.len() >= 2 {
        assert(x[1] == e[1]);
    }
    if e.len() >= 3 {
        assert(x[2] == e[2]);
    }
    if e.len() >= 4 {
        assert(x[3] == e[3]);
    }
}

/// A boundary of UTF-8 bytes lies within them.
proof fn lemma_boundary_within(bytes: Seq<u8>, idx: int)
    requires
        vstd::utf8::valid_utf8(bytes),
        is_char_boundary(bytes, idx),
    ensures
        0 <= idx <= bytes.len(),
{
}

/// The encoding of one character is not empty.
proof fn lemma_single_char_encoding(ch: char)
    ensures
        utf8_of(seq![ch]).len() >= 1,
{
    vstd::utf8::encode_utf8_first_scalar(seq![ch]);
}

/// What follows a boundary inside the text starts with a whole character.
proof fn lemma_rest_after_boundary(bytes: Seq<u8>, idx: int)
    requires
        vstd::utf8::valid_utf8(bytes),
        0 <= idx < bytes.len(),
        is_char_boundary(bytes, idx),
    ensures
        vstd::utf8::valid_first_scalar(bytes.skip(idx)),
        vstd::utf8::length_of_first_scalar(bytes.skip(idx)) <= bytes.len() - idx,
{
    vstd::utf8::valid_utf8_split(bytes, idx);
    assert(bytes.skip(idx) =~= bytes.subrange(idx, bytes.len() as int));
}

} // verus!
