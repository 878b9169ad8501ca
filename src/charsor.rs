//! A cursor over the characters of a string slice that keeps the byte offset
//! of the next character.
use core::ops::Range;
use vstd::prelude::*;
use vstd::string::StringSliceAdditionalSpecFns;
use vstd::utf8::*;

verus! {

broadcast use group_utf8_lib;

/// Byte length of the UTF-8 encoding of the first `i` chars of `s`.
pub open spec fn char_offset(s: Seq<char>, i: nat) -> nat {
    encode_utf8(s.take(i as int)).len()
}

/// The encoding of two char sequences one after the other.
pub proof fn lemma_encode_concat(a: Seq<char>, b: Seq<char>)
    ensures
        encode_utf8(a + b) == encode_utf8(a) + encode_utf8(b),
    decreases a.len(),
{
    if a.len() == 0 {
        assert(a + b =~= b);
        assert(encode_utf8(a) + encode_utf8(b) =~= encode_utf8(b));
    } else {
        assert((a + b).drop_first() =~= a.drop_first() + b);
        assert((a + b)[0] == a[0]);
        lemma_encode_concat(a.drop_first(), b);
        assert(encode_scalar(a[0] as u32) + (encode_utf8(a.drop_first()) + encode_utf8(b))
            =~= (encode_scalar(a[0] as u32) + encode_utf8(a.drop_first())) + encode_utf8(b));
    }
}

/// The encoding of `s` split after its first `i` chars.
pub proof fn lemma_encode_split(s: Seq<char>, i: nat)
    requires
        i <= s.len(),
    ensures
        encode_utf8(s) == encode_utf8(s.take(i as int)) + encode_utf8(s.skip(i as int)),
        char_offset(s, i) <= encode_utf8(s).len(),
        i < s.len() ==> char_offset(s, i + 1) == char_offset(s, i) + encode_scalar(
            s[i as int] as u32,
        ).len(),
{
    assert(s =~= s.take(i as int) + s.skip(i as int));
    lemma_encode_concat(s.take(i as int), s.skip(i as int));
    if i < s.len() {
        let one = seq![s[i as int]];
        assert(s.take(i + 1 as int) =~= s.take(i as int) + one);
        lemma_encode_concat(s.take(i as int), one);
        assert(one.drop_first() =~= Seq::<char>::empty());
        assert(encode_utf8(Seq::<char>::empty()) =~= Seq::<u8>::empty());
        assert(one[0] == s[i as int]);
        assert(encode_utf8(one) == encode_scalar(one[0] as u32) + encode_utf8(one.drop_first()));
        assert(encode_utf8(one) =~= encode_scalar(s[i as int] as u32));
    }
}

/// Every char takes at least one byte.
pub proof fn lemma_encode_len(s: Seq<char>)
    ensures
        s.len() <= encode_utf8(s).len(),
    decreases s.len(),
{
    if s.len() > 0 {
        lemma_encode_len(s.drop_first());
    }
}

/// Where the first `i` chars end is a char boundary of the encoding.
pub proof fn lemma_prefix_boundary(s: Seq<char>, i: nat)
    requires
        i <= s.len(),
    ensures
        is_char_boundary(encode_utf8(s), char_offset(s, i) as int),
    decreases i,
{
    let bytes = encode_utf8(s);
    if i > 0 {
        encode_utf8_first_scalar(s);
        let l = encode_scalar(s[0] as u32).len();
        assert(pop_first_scalar(bytes) =~= encode_utf8(s.drop_first()));
        assert(s.take(i as int).drop_first() =~= s.drop_first().take(i - 1));
        assert(s.take(i as int)[0] == s[0]);
        lemma_prefix_boundary(s.drop_first(), (i - 1) as nat);
        lemma_encode_split(s, i);
        assert(char_offset(s, i) == l + char_offset(s.drop_first(), (i - 1) as nat));
    } else {
        assert(s.take(0) =~= Seq::<char>::empty());
    }
}

/// A string slice whose bytes are a sequence's encoding holds that sequence.
pub proof fn lemma_same_encoding(t: &str, s: Seq<char>)
    requires
        t.spec_bytes() == encode_utf8(s),
    ensures
        t@ == s,
{
    encode_utf8_decode_utf8(t@);
    encode_utf8_decode_utf8(s);
}

/// Byte length of the UTF-8 encoding of `c`.
pub fn utf8_width(c: char) -> (r: usize)
    ensures
        r == encode_scalar(c as u32).len(),
{
    let v = c as u32;
    proof {
        char_is_scalar(c);
    }
    if v <= 0x7f {
        1
    } else if v <= 0x7ff {
        2
    } else if v <= 0xffff {
        3
    } else {
        4
    }
}

/// A char boundary stays one in a prefix that ends at a char boundary.
pub proof fn lemma_boundary_in_prefix(b: Seq<u8>, start: int, end: int)
    requires
        valid_utf8(b),
        0 <= start <= end <= b.len(),
        is_char_boundary(b, start),
        is_char_boundary(b, end),
    ensures
        valid_utf8(b.take(end)),
        is_char_boundary(b.take(end), start),
    decreases b.len(),
{
    let t = b.take(end);
    valid_utf8_split(b, end);
    assert(b.subrange(0, end) =~= t);
    if start > 0 {
        let l = length_of_first_scalar(b);
        assert(start >= l);
        assert(t[0] == b[0]);
        assert(length_of_first_scalar(t) == l);
        assert(pop_first_scalar(t) =~= pop_first_scalar(b).take(end - l));
        lemma_boundary_in_prefix(pop_first_scalar(b), start - l, end - l);
    }
}

/// A cursor over the chars of a borrowed string.
#[derive(Clone)]
pub struct Charsor<'a> {
    input: &'a str,
    /// Byte position of the next char.
    offset: usize,
    /// Byte length of the char before `offset`, or 0 at the start.
    prev_width: usize,
    /// How many chars lie before `offset`.
    consumed: Ghost<nat>,
}

impl<'a> Charsor<'a> {
    /// The chars of the input.
    pub closed spec fn chars(&self) -> Seq<char> {
        self.input@
    }

    /// The bytes of the input.
    pub closed spec fn bytes(&self) -> Seq<u8> {
        self.input.spec_bytes()
    }

    /// How many chars have been consumed.
    pub closed spec fn index(&self) -> nat {
        self.consumed@
    }

    /// The cursor's invariant: `offset` is the byte position just after the
    /// consumed chars.
    pub closed spec fn wf(&self) -> bool {
        &&& self.consumed@ <= self.input@.len()
        &&& self.offset == char_offset(self.input@, self.consumed@)
        &&& self.prev_width == (if self.consumed@ > 0 {
            encode_scalar(self.input@[self.consumed@ - 1] as u32).len()
        } else {
            0
        })
        &&& self.input.spec_bytes().len() <= usize::MAX
    }

    /// What the invariant tells a caller.
    pub proof fn lemma_wf(&self)
        requires
            self.wf(),
        ensures
            self.index() <= self.chars().len(),
            self.bytes() == encode_utf8(self.chars()),
    {
    }

    /// A cursor before the first char of `input`.
    pub fn new(input: &'a str) -> (r: Self)
        ensures
            r.wf(),
            r.chars() == input@,
            r.bytes() == input.spec_bytes(),
            r.index() == 0,
    {
        let _ = input.as_bytes().len();
        proof {
            assert(input@.take(0) =~= Seq::<char>::empty());
        }
        Self { input, offset: 0, prev_width: 0, consumed: Ghost(0) }
    }

    /// The next char, without consuming it.
    pub fn peek(&self) -> (r: Option<char>)
        requires
            self.wf(),
        ensures
            r == (if self.index() < self.chars().len() {
                Some(self.chars()[self.index() as int])
            } else {
                None::<char>
            }),
    {
        proof {
            lemma_prefix_boundary(self.input@, self.consumed@);
            lemma_encode_split(self.input@, self.consumed@);
        }
        let (_, rest) = self.input.split_at(self.offset);
        proof {
            let i = self.consumed@ as int;
            assert(rest.spec_bytes() =~= encode_utf8(self.input@.skip(i)));
            lemma_same_encoding(rest, self.input@.skip(i));
        }
        let mut it = rest.chars();
        it.next()
    }

    /// Consumes and returns the next char.
    pub fn next(&mut self) -> (r: Option<char>)
        requires
            old(self).wf(),
        ensures
            final(self).wf(),
            final(self).chars() == old(self).chars(),
            final(self).bytes() == old(self).bytes(),
            r == (if old(self).index() < old(self).chars().len() {
                Some(old(self).chars()[old(self).index() as int])
            } else {
                None::<char>
            }),
            final(self).index() == old(self).index() + (if r is Some {
                1nat
            } else {
                0
            }),
    {
        let r = self.peek();
        match r {
            Some(ch) => {
                proof {
                    lemma_encode_split(self.input@, self.consumed@);
                    lemma_encode_split(self.input@, self.consumed@ + 1);
                }
                let width = utf8_width(ch);
                self.offset = self.offset + width;
                self.prev_width = width;
                self.consumed = Ghost(self.consumed@ + 1);
            },
            None => {},
        }
        r
    }

    /// The char before the cursor, without moving it.
    pub fn prev(&self) -> (r: Option<char>)
        requires
            self.wf(),
        ensures
            r == (if self.index() > 0 {
                Some(self.chars()[self.index() - 1])
            } else {
                None::<char>
            }),
    {
        if self.prev_width == 0 {
            proof {
                if self.consumed@ > 0 {
                    char_is_scalar(self.input@[self.consumed@ - 1]);
                }
            }
            return None;
        }
        let ghost i = (self.consumed@ - 1) as nat;
        proof {
            lemma_prefix_boundary(self.input@, i);
            lemma_encode_split(self.input@, i);
        }
        let (_, rest) = self.input.split_at(self.offset - self.prev_width);
        proof {
            assert(rest.spec_bytes() =~= encode_utf8(self.input@.skip(i as int)));
            lemma_same_encoding(rest, self.input@.skip(i as int));
        }
        let mut it = rest.chars();
        it.next()
    }

    /// Consumes chars while `func` accepts them; returns how many it took.
    pub fn eat_while<F: Fn(char) -> bool>(&mut self, func: F) -> (r: usize)
        requires
            old(self).wf(),
            forall|c: char| func.requires((c,)),
        ensures
            final(self).wf(),
            final(self).chars() == old(self).chars(),
            final(self).bytes() == old(self).bytes(),
            final(self).index() == old(self).index() + r,
            forall|i: int|
                old(self).index() <= i < final(self).index() ==> func.ensures(
                    (old(self).chars()[i],),
                    true,
                ),
            final(self).index() < old(self).chars().len() ==> func.ensures(
                (old(self).chars()[final(self).index() as int],),
                false,
            ),
    {
        let mut n: usize = 0;
        let ghost start = self.consumed@;
        loop
            invariant
                self.wf(),
                self.chars() == old(self).chars(),
                self.bytes() == old(self).bytes(),
                self.index() == start + n,
                start == old(self).index(),
                forall|c: char| func.requires((c,)),
                forall|i: int| start <= i < self.index() ==> func.ensures((self.chars()[i],), true),
            ensures
                self.wf(),
                self.chars() == old(self).chars(),
                self.bytes() == old(self).bytes(),
                self.index() == start + n,
                forall|i: int| start <= i < self.index() ==> func.ensures((self.chars()[i],), true),
                self.index() < self.chars().len() ==> func.ensures(
                    (self.chars()[self.index() as int],),
                    false,
                ),
            decreases self.chars().len() - self.index(),
        {
            match self.peek() {
                Some(ch) => {
                    if !func(ch) {
                        break;
                    }
                    proof {
                        lemma_encode_split(self.input@, self.consumed@);
                        lemma_encode_split(self.input@, self.consumed@ + 1);
                        lemma_encode_len(self.input@);
                        assert(n < self.input@.len());
                    }
                    n += 1;
                    let width = utf8_width(ch);
                    self.offset = self.offset + width;
                    self.prev_width = width;
                    self.consumed = Ghost(self.consumed@ + 1);
                },
                None => {
                    break;
                },
            }
        }
        n
    }

    /// Byte position of the next char: the input's length once all are consumed.
    pub fn offset(&self) -> (r: usize)
        requires
            self.wf(),
        ensures
            r == char_offset(self.chars(), self.index()),
    {
        self.offset
    }

    /// Byte position of the char before the cursor, or 0 at the start.
    pub fn prev_offset(&self) -> (r: usize)
        requires
            self.wf(),
        ensures
            r == (if self.index() > 0 {
                char_offset(self.chars(), (self.index() - 1) as nat)
            } else {
                0
            }),
    {
        proof {
            if self.consumed@ > 0 {
                lemma_encode_split(self.input@, (self.consumed@ - 1) as nat);
            }
        }
        self.offset - self.prev_width
    }

    /// The part of the input between two byte positions, both of them char
    /// boundaries.
    pub fn slice_range(&self, range: Range<usize>) -> (r: &'a str)
        requires
            self.wf(),
            range.start <= range.end <= self.bytes().len(),
            is_char_boundary(self.bytes(), range.start as int),
            is_char_boundary(self.bytes(), range.end as int),
        ensures
            r.spec_bytes() == self.bytes().subrange(range.start as int, range.end as int),
    {
        proof {
            encode_utf8_valid_utf8(self.input@);
            lemma_boundary_in_prefix(self.bytes(), range.start as int, range.end as int);
        }
        let (head, _) = self.input.split_at(range.end);
        proof {
            assert(head.spec_bytes() =~= self.bytes().take(range.end as int));
        }
        let (_, part) = head.split_at(range.start);
        proof {
            assert(part.spec_bytes() =~= self.bytes().subrange(range.start as int, range.end as int));
        }
        part
    }
}

} // verus!
