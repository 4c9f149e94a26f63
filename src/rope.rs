//! A rope: a tree of UTF-8 chunks that supports insertion, removal and
//! overwrite at byte offsets, and read-only views over byte ranges.
use vstd::prelude::*;
use vstd::utf8::*;
use vstd::string::*;
use crate::node::{
    Node,
    NodeAction,
    MAX_LEAF,
    MAX_LEN,
    action_text,
    action_wf,
    action_delta,
    spliced,
    excised,
    leaves_text,
    lemma_boundary_at_join,
    lemma_leaves_text_split,
    lemma_leaves_valid,
};
use crate::utf8::{char_indices, decode_char, lemma_char_indices_concat};

verus! {

broadcast use vstd::utf8::group_utf8_lib;

/// A mutable text held as a tree of chunks.
pub struct Rope {
    root: Node,
    len: usize,
}

/// A read-only view over a byte range of a rope, and a cursor over its bytes.
pub struct RopeSlice<'rope> {
    // All chunks which make up the slice, in order.
    nodes: Vec<&'rope Vec<u8>>,
    // The offset of the start point in the first chunk.
    start: usize,
    // The length of text used in the last chunk.
    len: usize,
    // The chunk and the byte within it that the cursor stands at.
    cur_node: usize,
    cur_byte: usize,
    // Bytes still to be read.
    remaining: usize,
}

/// Cursor over the characters of a rope, yielding each with the offset of
/// its first byte.
pub struct RopeChars<'rope> {
    data: RopeSlice<'rope>,
    abs_byte: usize,
}

/// Relies on `char`'s `ToString`: a string of that one character.
#[verifier::external_body]
fn char_to_string(c: char) -> (r: String)
    ensures
        r@ == seq![c],
{
    c.to_string()
}

impl View for Rope {
    type V = Seq<u8>;

    closed spec fn view(&self) -> Seq<u8> {
        self.root.text()
    }
}

impl Rope {
    /// Well-formedness: the tree is well formed and `len` is its length.
    pub closed spec fn wf(&self) -> bool {
        &&& self.root.wf()
        &&& self.len == self.root.text().len()
        &&& self.len <= MAX_LEN
    }

    /// Sum of the lengths of the leaf chunks.
    pub closed spec fn leaf_total(&self) -> nat {
        self.root.leaf_total()
    }

    /// The contents of a well-formed rope are valid UTF-8, and its length is
    /// the sum of the lengths of its leaves.
    pub proof fn lemma_wf(&self)
        requires
            self.wf(),
        ensures
            valid_utf8(self@),
            self@.len() == self.leaf_total(),
            self@.len() <= MAX_LEN,
    {
        self.root.lemma_wf();
    }

    pub fn new() -> (r: Rope)
        ensures
            r.wf(),
            r@ == Seq::<u8>::empty(),
    {
        Rope { root: Node::Leaf(Vec::new()), len: 0 }
    }

    pub fn len(&self) -> (r: usize)
        requires
            self.wf(),
        ensures
            r == self@.len(),
    {
        self.len
    }

    /// Puts in place of the root what `act` leaves of it, and moves the
    /// length by the change it reports.
    fn apply(&mut self, act: NodeAction)
        requires
            action_wf(old(self).root, act),
            action_delta(
                act,
                old(self).len as int,
                action_text(old(self).root, act).len() as int,
            ),
            old(self).len <= MAX_LEN,
            action_text(old(self).root, act).len() <= MAX_LEN,
        ensures
            final(self).wf(),
            final(self)@ == action_text(old(self).root, act),
    {
        match act {
            NodeAction::NoChange => {},
            NodeAction::Remove => {
                self.root = Node::Leaf(Vec::new());
                self.len = 0;
            },
            NodeAction::Adjust(adj) => {
                self.len = (self.len as isize + adj) as usize;
            },
            NodeAction::Change(node, adj) => {
                self.root = *node;
                self.len = (self.len as isize + adj) as usize;
            },
        }
    }

    fn insert_bytes(&mut self, start: usize, text: &[u8])
        requires
            old(self).wf(),
            start <= old(self)@.len(),
            is_char_boundary(old(self)@, start as int),
            valid_utf8(text@),
            old(self)@.len() + text@.len() <= MAX_LEN,
        ensures
            final(self).wf(),
            final(self)@ == spliced(old(self)@, start as int, text@),
    {
        let act = self.root.insert(start, text);
        self.apply(act);
    }

    /// Inserts `text` at byte offset `start`, which must fall on a character
    /// boundary.
    pub fn insert(&mut self, start: usize, text: String)
        requires
            old(self).wf(),
            start <= old(self)@.len(),
            is_char_boundary(old(self)@, start as int),
            old(self)@.len() + encode_utf8(text@).len() <= MAX_LEN,
        ensures
            final(self).wf(),
            final(self)@ == spliced(old(self)@, start as int, encode_utf8(text@)),
    {
        let bytes = text.as_str().as_bytes();
        self.insert_bytes(start, bytes);
    }

    /// Inserts a copy of `text` at byte offset `start`.
    pub fn insert_copy(&mut self, start: usize, text: &str)
        requires
            old(self).wf(),
            start <= old(self)@.len(),
            is_char_boundary(old(self)@, start as int),
            old(self)@.len() + encode_utf8(text@).len() <= MAX_LEN,
        ensures
            final(self).wf(),
            final(self)@ == spliced(old(self)@, start as int, encode_utf8(text@)),
    {
        self.insert_bytes(start, text.as_bytes());
    }

    /// Appends `text`.
    pub fn push(&mut self, text: String)
        requires
            old(self).wf(),
            old(self)@.len() + encode_utf8(text@).len() <= MAX_LEN,
        ensures
            final(self).wf(),
            final(self)@ == old(self)@ + encode_utf8(text@),
    {
        let len = self.len();
        proof {
            self.lemma_wf();
            is_char_boundary_start_end_of_seq(self@);
        }
        self.insert(len, text);
        assert(spliced(old(self)@, len as int, encode_utf8(text@)) =~= old(self)@ + encode_utf8(
            text@,
        ));
    }

    /// Appends a copy of `text`.
    pub fn push_copy(&mut self, text: &str)
        requires
            old(self).wf(),
            old(self)@.len() + encode_utf8(text@).len() <= MAX_LEN,
        ensures
            final(self).wf(),
            final(self)@ == old(self)@ + encode_utf8(text@),
    {
        let len = self.len();
        proof {
            self.lemma_wf();
            is_char_boundary_start_end_of_seq(self@);
        }
        self.insert_copy(len, text);
        assert(spliced(old(self)@, len as int, encode_utf8(text@)) =~= old(self)@ + encode_utf8(
            text@,
        ));
    }

    /// Removes the bytes of `[start, end)`; both ends must fall on character
    /// boundaries. An empty range changes nothing.
    pub fn remove(&mut self, start: usize, end: usize)
        requires
            old(self).wf(),
            start <= end <= old(self)@.len(),
            is_char_boundary(old(self)@, start as int),
            is_char_boundary(old(self)@, end as int),
        ensures
            final(self).wf(),
            final(self)@ == excised(old(self)@, start as int, end as int),
    {
        if start == end {
            assert(excised(self@, start as int, end as int) =~= self@);
            return;
        }
        let act = self.root.remove(start, end);
        self.apply(act);
    }

    /// Overwrites the bytes from `start` on with `new_str`. The bytes that
    /// are overwritten must span whole characters.
    pub fn replace_str(&mut self, start: usize, new_str: &str)
        requires
            old(self).wf(),
            start + encode_utf8(new_str@).len() <= old(self)@.len(),
            is_char_boundary(old(self)@, start as int),
            is_char_boundary(old(self)@, start + encode_utf8(new_str@).len()),
        ensures
            final(self).wf(),
            final(self)@ == old(self)@.subrange(0, start as int) + encode_utf8(new_str@)
                + old(self)@.subrange(
                start + encode_utf8(new_str@).len(),
                old(self)@.len() as int,
            ),
    {
        let bytes = new_str.as_bytes();
        let end = start + bytes.len();
        let ghost before = self@;
        proof {
            self.lemma_wf();
        }
        self.remove(start, end);
        proof {
            valid_utf8_split(before, start as int);
            valid_utf8_split(before, end as int);
            lemma_boundary_at_join(
                before.subrange(0, start as int),
                before.subrange(end as int, before.len() as int),
            );
        }
        self.insert_bytes(start, bytes);
        assert(self@ =~= before.subrange(0, start as int) + bytes@ + before.subrange(
            end as int,
            before.len() as int,
        ));
    }

    /// Overwrites the character at `start` with `new_char`, which must have
    /// an encoding of the same length.
    pub fn replace(&mut self, start: usize, new_char: char)
        requires
            old(self).wf(),
            start + encode_utf8(seq![new_char]).len() <= old(self)@.len(),
            is_char_boundary(old(self)@, start as int),
            is_char_boundary(old(self)@, start + encode_utf8(seq![new_char]).len()),
        ensures
            final(self).wf(),
            final(self)@ == old(self)@.subrange(0, start as int) + encode_utf8(seq![new_char])
                + old(self)@.subrange(
                start + encode_utf8(seq![new_char]).len(),
                old(self)@.len() as int,
            ),
    {
        let s = char_to_string(new_char);
        self.replace_str(start, s.as_str());
    }

    /// A view over the bytes of `range`.
    pub fn slice(&self, range: core::ops::Range<usize>) -> (r: RopeSlice<'_>)
        requires
            self.wf(),
            range.start <= range.end <= self@.len(),
        ensures
            r.wf(),
            r@ == self@.subrange(range.start as int, range.end as int),
            r.rest() == r@,
            r.leaves_valid(),
            range.start == 0 && range.end == self@.len() ==> r.at_start_of_whole(),
    {
        let start = range.start;
        let end = range.end;
        if start == end {
            let r = RopeSlice::empty();
            assert(r@ =~= self@.subrange(start as int, end as int));
            return r;
        }
        let mut nodes: Vec<&Vec<u8>> = Vec::new();
        let (trim, tail) = self.root.find_slice(start, end, &mut nodes);
        let last = nodes[nodes.len() - 1].len();
        let r = RopeSlice {
            nodes,
            start: trim,
            len: last - tail,
            cur_node: 0,
            cur_byte: trim,
            remaining: end - start,
        };
        proof {
            assert(r.nodes@.subrange(0, r.nodes@.len() as int) =~= r.nodes@);
            assert(r.nodes@.subrange(0, 0) =~= Seq::<&Vec<u8>>::empty());
            assert(leaves_text(r.nodes@.subrange(0, 0)) =~= Seq::<u8>::empty());
            assert(r@ =~= self@.subrange(start as int, end as int));
            if start == 0 && end == self@.len() {
                assert(r.total() =~= self@);
                assert(r@ =~= r.total());
            }
        }
        r
    }

    /// A view over the whole rope.
    pub fn full_slice(&self) -> (r: RopeSlice<'_>)
        requires
            self.wf(),
        ensures
            r.wf(),
            r@ == self@,
            r.rest() == r@,
            r.leaves_valid(),
            r.at_start_of_whole(),
    {
        let r = self.slice(0..self.len);
        assert(self@.subrange(0, self@.len() as int) =~= self@);
        r
    }

    /// A cursor over the characters of the rope and their byte offsets.
    pub fn chars(&self) -> (r: RopeChars<'_>)
        requires
            self.wf(),
        ensures
            r.wf(),
            r.rest() == char_indices(self@, 0),
    {
        let data = self.full_slice();
        proof {
            self.lemma_wf();
            assert(data.nodes@.subrange(0, 0) =~= Seq::<&Vec<u8>>::empty());
            assert(leaves_text(data.nodes@.subrange(0, 0)) =~= Seq::<u8>::empty());
            if data.nodes@.len() > 0 {
                let d = data.nodes@[0]@;
                assert(d.subrange(0, d.len() as int) =~= d);
            }
        }
        let r = RopeChars { data, abs_byte: 0 };
        proof {
            assert(r.data.total().subrange(0, r.data.total().len() as int) =~= self@);
        }
        r
    }
}

impl<'rope> View for RopeSlice<'rope> {
    type V = Seq<u8>;

    closed spec fn view(&self) -> Seq<u8> {
        if self.nodes@.len() == 0 {
            seq![]
        } else {
            self.total().subrange(
                self.start as int,
                self.total().len() - self.nodes@.last()@.len() + self.len,
            )
        }
    }
}

impl<'rope> RopeSlice<'rope> {
    /// The bytes of all chunks of the slice, untrimmed.
    closed spec fn total(&self) -> Seq<u8> {
        leaves_text(self.nodes@)
    }

    /// Offset of the cursor within `total`.
    closed spec fn pos(&self) -> int {
        leaves_text(self.nodes@.subrange(0, self.cur_node as int)).len() + self.cur_byte
    }

    /// Every chunk of the slice holds valid UTF-8.
    pub closed spec fn leaves_valid(&self) -> bool {
        forall|i: int| 0 <= i < self.nodes@.len() ==> valid_utf8(#[trigger] self.nodes@[i]@)
    }

    /// The cursor stands at the start of a slice that covers its chunks whole.
    pub closed spec fn at_start_of_whole(&self) -> bool {
        &&& self.cur_node == 0
        &&& self.cur_byte == 0
        &&& self.remaining == self.total().len()
        &&& self@ == self.total()
    }

    /// Well-formedness of the cursor.
    pub closed spec fn wf(&self) -> bool {
        &&& forall|i: int| 0 <= i < self.nodes@.len() ==> (#[trigger] self.nodes@[i])@.len() <= MAX_LEAF
        &&& self.cur_node <= self.nodes@.len()
        &&& self.cur_node < self.nodes@.len() ==> self.cur_byte <= self.nodes@[self.cur_node as int]@.len()
        &&& self.cur_node == self.nodes@.len() ==> self.cur_byte == 0
        &&& self.pos() + self.remaining <= self.total().len()
    }

    /// The bytes still to be read.
    pub closed spec fn rest(&self) -> Seq<u8> {
        self.total().subrange(self.pos(), self.pos() + self.remaining)
    }

    fn empty() -> (r: RopeSlice<'rope>)
        ensures
            r.wf(),
            r.at_start_of_whole(),
            r@ == Seq::<u8>::empty(),
            r.rest() == r@,
            r.leaves_valid(),
    {
        let r = RopeSlice {
            nodes: Vec::new(),
            start: 0,
            len: 0,
            cur_node: 0,
            cur_byte: 0,
            remaining: 0,
        };
        proof {
            assert(r.nodes@.subrange(0, 0) =~= Seq::<&Vec<u8>>::empty());
            assert(r.rest() =~= Seq::<u8>::empty());
        }
        r
    }

    /// Moves the cursor past exhausted chunks, to a chunk with a byte left.
    fn skip_exhausted(&mut self)
        requires
            old(self).wf(),
            old(self).remaining > 0,
        ensures
            final(self).wf(),
            final(self).nodes == old(self).nodes,
            final(self).start == old(self).start,
            final(self).len == old(self).len,
            final(self).remaining == old(self).remaining,
            final(self).pos() == old(self).pos(),
            final(self).cur_node < final(self).nodes@.len(),
            final(self).cur_byte < final(self).nodes@[final(self).cur_node as int]@.len(),
            final(self).cur_node != old(self).cur_node ==> final(self).cur_byte == 0,
    {
        let ghost n = self.nodes@.len() as int;
        let nl = self.nodes.len();
        proof {
            assert(self.nodes@.subrange(0, n) =~= self.nodes@);
        }
        loop
            invariant
                n == nl,
                self.wf(),
                self.nodes == old(self).nodes,
                self.start == old(self).start,
                self.len == old(self).len,
                self.remaining == old(self).remaining,
                self.remaining > 0,
                self.pos() == old(self).pos(),
                n == self.nodes@.len(),
                self.nodes@.subrange(0, n) == self.nodes@,
                self.cur_node != old(self).cur_node ==> self.cur_byte == 0,
            ensures
                self.wf(),
                self.nodes == old(self).nodes,
                self.start == old(self).start,
                self.len == old(self).len,
                self.remaining == old(self).remaining,
                self.pos() == old(self).pos(),
                self.cur_node < n,
                self.cur_byte < self.nodes@[self.cur_node as int]@.len(),
                self.cur_node != old(self).cur_node ==> self.cur_byte == 0,
            decreases n - self.cur_node,
        {
            proof {
                if self.cur_node == n {
                    assert(self.pos() == self.total().len());
                }
            }
            if self.cur_byte < self.nodes[self.cur_node].len() {
                break;
            }
            proof {
                let k = self.cur_node as int;
                assert(self.nodes@.subrange(0, k + 1).drop_last() =~= self.nodes@.subrange(0, k));
                if k + 1 == n {
                    assert(false);
                }
            }
            self.cur_node = self.cur_node + 1;
            self.cur_byte = 0;
        }
    }

    /// Moves the cursor `w` bytes on within the chunk it stands in.
    fn advance(&mut self, w: usize)
        requires
            old(self).wf(),
            old(self).cur_node < old(self).nodes@.len(),
            old(self).cur_byte + w <= old(self).nodes@[old(self).cur_node as int]@.len(),
            w <= old(self).remaining,
        ensures
            final(self).wf(),
            final(self).nodes == old(self).nodes,
            final(self).start == old(self).start,
            final(self).len == old(self).len,
            final(self).cur_node == old(self).cur_node,
            final(self).cur_byte == old(self).cur_byte + w,
            final(self).remaining == old(self).remaining - w,
            final(self).pos() == old(self).pos() + w,
    {
        self.cur_byte = self.cur_byte + w;
        self.remaining = self.remaining - w;
    }

    /// The next byte of the slice, or `None` at its end.
    pub fn next(&mut self) -> (r: Option<u8>)
        requires
            old(self).wf(),
        ensures
            final(self).wf(),
            final(self)@ == old(self)@,
            final(self).leaves_valid() == old(self).leaves_valid(),
            old(self).rest().len() == 0 ==> r is None && final(self).rest() == old(self).rest(),
            old(self).rest().len() > 0 ==> r == Some(old(self).rest()[0]) && final(self).rest()
                == old(self).rest().drop_first(),
    {
        if self.remaining == 0 {
            return None;
        }
        let ghost start_rest = self.rest();
        self.skip_exhausted();
        let b = self.nodes[self.cur_node][self.cur_byte];
        proof {
            let k = self.cur_node as int;
            let s = self.nodes@;
            lemma_leaves_text_split(s, k + 1);
            assert(s.subrange(0, k + 1).drop_last() =~= s.subrange(0, k));
            assert(self.total()[self.pos()] == b);
            assert(start_rest[0] == b);
        }
        self.cur_byte = self.cur_byte + 1;
        self.remaining = self.remaining - 1;
        proof {
            assert(self.rest() =~= start_rest.drop_first());
        }
        Some(b)
    }
}

/// Reading one character off the front of `total[abs..]`, where that
/// starts with the valid run `here`.
proof fn lemma_step(total: Seq<u8>, abs: int, here: Seq<u8>, tail: Seq<u8>)
    requires
        0 <= abs <= total.len(),
        total.subrange(abs, total.len() as int) == here + tail,
        valid_utf8(here),
        valid_utf8(tail),
        here.len() > 0,
    ensures
        ({
            let w = length_of_first_scalar(here);
            &&& 0 < w <= here.len()
            &&& valid_utf8(pop_first_scalar(here))
            &&& total.subrange(abs + w, total.len() as int) == pop_first_scalar(here) + tail
            &&& char_indices(total.subrange(abs, total.len() as int), abs) == seq![
                (decode_first_scalar(here) as char, abs as usize),
            ] + char_indices(total.subrange(abs + w, total.len() as int), abs + w)
        }),
{
    let w = length_of_first_scalar(here);
    let rest2 = pop_first_scalar(here);
    lemma_char_indices_concat(here, tail, abs);
    lemma_char_indices_concat(rest2, tail, abs + w);
    let whole = total.subrange(abs, total.len() as int);
    assert(whole.subrange(w, whole.len() as int) =~= rest2 + tail);
    assert(total.subrange(abs + w, total.len() as int) =~= whole.subrange(w, whole.len() as int));
}

impl<'rope> RopeChars<'rope> {
    /// Well-formedness: the cursor stands at a character boundary of a
    /// chunk of a view over a whole, valid text.
    pub closed spec fn wf(&self) -> bool {
        let d = self.data;
        &&& d.wf()
        &&& d.leaves_valid()
        &&& self.abs_byte == d.pos()
        &&& d.pos() + d.remaining == d.total().len()
        &&& d.total().len() <= MAX_LEN
        &&& d.cur_node < d.nodes@.len() ==> valid_utf8(
            d.nodes@[d.cur_node as int]@.subrange(
                d.cur_byte as int,
                d.nodes@[d.cur_node as int]@.len() as int,
            ),
        )
    }

    /// What is left to read: the characters from the cursor on, with their
    /// offsets from the start of the rope.
    pub closed spec fn rest(&self) -> Seq<(char, usize)> {
        char_indices(
            self.data.total().subrange(self.abs_byte as int, self.data.total().len() as int),
            self.abs_byte as int,
        )
    }

    proof fn lemma_split(&self)
        requires
            self.wf(),
            self.data.cur_node < self.data.nodes@.len(),
        ensures
            ({
                let d = self.data;
                let k = d.cur_node as int;
                let here = d.nodes@[k]@.subrange(d.cur_byte as int, d.nodes@[k]@.len() as int);
                let tail = leaves_text(d.nodes@.subrange(k + 1, d.nodes@.len() as int));
                &&& d.total().subrange(self.abs_byte as int, d.total().len() as int) == here + tail
                &&& valid_utf8(tail)
            }),
    {
        let d = self.data;
        let s = d.nodes@;
        let k = d.cur_node as int;
        lemma_leaves_text_split(s, k + 1);
        assert(s.subrange(0, k + 1).drop_last() =~= s.subrange(0, k));
        let here = s[k]@.subrange(d.cur_byte as int, s[k]@.len() as int);
        let tail = leaves_text(s.subrange(k + 1, s.len() as int));
        assert(d.total().subrange(self.abs_byte as int, d.total().len() as int) =~= here + tail);
        let sub = s.subrange(k + 1, s.len() as int);
        assert forall|i: int| 0 <= i < sub.len() implies valid_utf8(#[trigger] sub[i]@) by {
            assert(sub[i] == s[k + 1 + i]);
        }
        lemma_leaves_valid(sub);
    }

    /// The next character and the offset of its first byte, or `None` at the
    /// end of the rope.
    #[verifier::spinoff_prover]
    #[verifier::rlimit(60)]
    pub fn next(&mut self) -> (r: Option<(char, usize)>)
        requires
            old(self).wf(),
        ensures
            final(self).wf(),
            old(self).rest().len() == 0 ==> r is None && final(self).rest() == old(self).rest(),
            old(self).rest().len() > 0 ==> r == Some(old(self).rest()[0]) && final(self).rest()
                == old(self).rest().drop_first(),
    {
        let ghost start = self.rest();
        if self.data.remaining == 0 {
            assert(self.data.total().subrange(self.abs_byte as int, self.data.total().len() as int)
                =~= Seq::<u8>::empty());
            return None;
        }
        let ghost k0 = self.data.cur_node;
        self.data.skip_exhausted();
        proof {
            if self.data.cur_node != k0 {
                let d = self.data.nodes@[self.data.cur_node as int]@;
                assert(d.subrange(0, d.len() as int) =~= d);
            }
            self.lemma_split();
        }
        let ghost s = self.data.nodes@;
        let ghost k = self.data.cur_node as int;
        let ghost here = s[k]@.subrange(self.data.cur_byte as int, s[k]@.len() as int);
        let ghost tail = leaves_text(s.subrange(k + 1, s.len() as int));
        let chunk = self.data.nodes[self.data.cur_node].as_slice();
        proof {
            assert(here =~= chunk@.subrange(self.data.cur_byte as int, chunk@.len() as int));
            lemma_step(self.data.total(), self.abs_byte as int, here, tail);
        }
        match decode_char(chunk, self.data.cur_byte) {
            Some((c, w)) => {
                let abs = self.abs_byte;
                self.data.advance(w);
                self.abs_byte = self.abs_byte + w;
                proof {
                    assert(s[k]@.subrange(self.data.cur_byte as int, s[k]@.len() as int)
                        =~= pop_first_scalar(here));
                    assert(self.rest() =~= start.drop_first());
                }
                Some((c, abs))
            },
            None => None,
        }
    }
}

/// Inserting `text` at `o` and then taking the bytes of `[o, o + |text|)`
/// gives back `text`.
pub proof fn lemma_insert_slice_round_trip(before: Seq<u8>, o: int, text: Seq<u8>)
    requires
        0 <= o <= before.len(),
    ensures
        spliced(before, o, text).len() == before.len() + text.len(),
        spliced(before, o, text).subrange(o, o + text.len()) == text,
{
    assert(spliced(before, o, text).subrange(o, o + text.len()) =~= text);
}

/// Removing an empty range leaves the text as it was, and an empty range
/// holds no bytes, at any offset up to and including the end.
pub proof fn lemma_empty_range(text: Seq<u8>, x: int)
    requires
        0 <= x <= text.len(),
    ensures
        excised(text, x, x) == text,
        text.subrange(x, x).len() == 0,
{
    assert(excised(text, x, x) =~= text);
}

/// Removing `[s, e)` leaves the bytes before `s` followed by the bytes from
/// `e` on, and shortens the text by `e - s`.
pub proof fn lemma_remove_result(text: Seq<u8>, s: int, e: int)
    requires
        0 <= s <= e <= text.len(),
    ensures
        excised(text, s, e).len() == text.len() - (e - s),
        excised(text, s, e).subrange(0, s) == text.subrange(0, s),
        excised(text, s, e).subrange(s, text.len() - (e - s)) == text.subrange(e, text.len() as int),
{
    assert(excised(text, s, e).subrange(0, s) =~= text.subrange(0, s));
    assert(excised(text, s, e).subrange(s, text.len() - (e - s)) =~= text.subrange(
        e,
        text.len() as int,
    ));
}

/// Overwriting from `s` with `new` keeps the length, and the overwritten
/// region reads back as `new`.
pub proof fn lemma_replace_round_trip(before: Seq<u8>, s: int, new: Seq<u8>)
    requires
        0 <= s,
        s + new.len() <= before.len(),
    ensures
        ({
            let after = before.subrange(0, s) + new + before.subrange(
                s + new.len(),
                before.len() as int,
            );
            &&& after.len() == before.len()
            &&& after.subrange(s, s + new.len()) == new
        }),
{
    let after = before.subrange(0, s) + new + before.subrange(s + new.len(), before.len() as int);
    assert(after.subrange(s, s + new.len()) =~= new);
}

} // verus!
