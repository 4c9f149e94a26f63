//! A string-like structure optimised for appending text and reading it back in
//! order: a list of chunks, each with a reserved capacity, where text is
//! appended to the last chunk until that chunk is full.
use vstd::prelude::*;
use vstd::utf8::*;
use vstd::string::*;
use crate::utf8::{char_indices, decode_char, lemma_char_indices_concat, string_from_utf8};

verus! {

broadcast use vstd::utf8::group_utf8_lib;

/// Largest capacity reserved for a chunk that is opened for growth.
pub const MAX_CAPACITY: usize = 0xffff;

/// Capacity of the first chunk of a buffer made by `StringBuffer::new`.
pub const INIT_CAPACITY: usize = 0xff;

/// One chunk of a buffer: its bytes and the capacity reserved for it.
#[derive(Debug)]
pub struct StringNode {
    data: Vec<u8>,
    cap: usize,
}

/// A growable text buffer made of chunks.
#[derive(Debug)]
pub struct StringBuffer {
    nodes: Vec<StringNode>,
    /// The length in bytes of the whole buffer.
    pub len: usize,
}

/// Cursor over the characters of a buffer, yielding each with the offset of
/// its first byte.
pub struct Chars<'a> {
    buf: &'a StringBuffer,
    // Chunk we are reading from.
    cur_node: usize,
    // Byte within that chunk.
    cur_byte: usize,
    // Byte since the start of the buffer.
    abs_byte: usize,
}

/// The bytes of a run of chunks, in order.
pub closed spec fn concat_nodes(nodes: Seq<StringNode>) -> Seq<u8>
    decreases nodes.len(),
{
    if nodes.len() == 0 {
        seq![]
    } else {
        concat_nodes(nodes.drop_last()) + nodes.last().data@
    }
}

proof fn lemma_concat_split(nodes: Seq<StringNode>, k: int)
    requires
        0 <= k <= nodes.len(),
    ensures
        concat_nodes(nodes) == concat_nodes(nodes.subrange(0, k)) + concat_nodes(
            nodes.subrange(k, nodes.len() as int),
        ),
    decreases nodes.len(),
{
    if k == nodes.len() {
        assert(nodes.subrange(0, k) =~= nodes);
        assert(concat_nodes(nodes.subrange(k, nodes.len() as int)) =~= seq![]);
        assert(concat_nodes(nodes) + seq![] =~= concat_nodes(nodes));
    } else {
        let n = nodes.len() as int;
        lemma_concat_split(nodes.drop_last(), k);
        assert(nodes.drop_last().subrange(0, k) =~= nodes.subrange(0, k));
        assert(nodes.subrange(k, n).drop_last() =~= nodes.drop_last().subrange(k, n - 1));
        assert(concat_nodes(nodes) =~= concat_nodes(nodes.subrange(0, k)) + concat_nodes(
            nodes.subrange(k, n),
        ));
    }
}

proof fn lemma_concat_valid(nodes: Seq<StringNode>)
    requires
        forall|i: int| 0 <= i < nodes.len() ==> valid_utf8(#[trigger] nodes[i].data@),
    ensures
        valid_utf8(concat_nodes(nodes)),
    decreases nodes.len(),
{
    if nodes.len() > 0 {
        lemma_concat_valid(nodes.drop_last());
        valid_utf8_concat(concat_nodes(nodes.drop_last()), nodes.last().data@);
    }
}

/// Number of bytes after the last newline; the whole length where there is
/// no newline.
pub open spec fn after_last_newline(s: Seq<u8>) -> nat
    decreases s.len(),
{
    if s.len() == 0 {
        0
    } else if s.last() == 10u8 {
        0
    } else {
        after_last_newline(s.drop_last()) + 1
    }
}

impl View for StringBuffer {
    type V = Seq<u8>;

    closed spec fn view(&self) -> Seq<u8> {
        concat_nodes(self.nodes@)
    }
}

impl StringNode {
    fn with_capacity(capacity: usize) -> (r: StringNode)
        ensures
            r.data@ == Seq::<u8>::empty(),
            r.cap == capacity,
    {
        StringNode { data: Vec::with_capacity(capacity), cap: capacity }
    }
}

impl StringBuffer {
    /// Well-formedness: at least one chunk, each within its capacity and
    /// holding valid UTF-8, and `len` the total length.
    pub closed spec fn wf(&self) -> bool {
        &&& self.nodes@.len() >= 1
        &&& self.len == self@.len()
        &&& forall|i: int|
            0 <= i < self.nodes@.len() ==> (#[trigger] self.nodes@[i]).data@.len()
                <= self.nodes@[i].cap
        &&& forall|i: int| 0 <= i < self.nodes@.len() ==> valid_utf8(#[trigger] self.nodes@[i].data@)
    }

    /// Number of chunks.
    pub closed spec fn spec_node_count(&self) -> nat {
        self.nodes@.len()
    }

    /// Room left in the last chunk.
    pub closed spec fn spec_last_room(&self) -> int {
        self.nodes@.last().cap - self.nodes@.last().data@.len()
    }

    /// Capacity reserved for the first chunk.
    pub closed spec fn spec_first_capacity(&self) -> usize {
        self.nodes@[0].cap
    }

    /// The contents of a well-formed buffer are valid UTF-8.
    pub proof fn lemma_wf_valid_utf8(&self)
        requires
            self.wf(),
        ensures
            valid_utf8(self@),
    {
        lemma_concat_valid(self.nodes@);
    }

    pub fn new() -> (r: StringBuffer)
        ensures
            r.wf(),
            r@ == Seq::<u8>::empty(),
            r.spec_node_count() == 1,
            r.spec_first_capacity() == INIT_CAPACITY,
    {
        StringBuffer::with_capacity(INIT_CAPACITY)
    }

    pub fn with_capacity(capacity: usize) -> (r: StringBuffer)
        ensures
            r.wf(),
            r@ == Seq::<u8>::empty(),
            r.spec_node_count() == 1,
            r.spec_first_capacity() == capacity,
    {
        let mut nodes: Vec<StringNode> = Vec::new();
        nodes.push(StringNode::with_capacity(capacity));
        let r = StringBuffer { nodes, len: 0 };
        proof {
            assert(r.nodes@.drop_last() =~= Seq::<StringNode>::empty());
            reveal_with_fuel(concat_nodes, 2);
            assert(r@ =~= Seq::<u8>::empty());
        }
        r
    }

    /// A buffer holding `text`, its first chunk large enough for it.
    pub fn from_text(text: &str) -> (r: StringBuffer)
        ensures
            r.wf(),
            r@ == text.spec_bytes(),
            r.spec_node_count() == 1,
            r.spec_first_capacity() == if text.spec_bytes().len() > INIT_CAPACITY {
                text.spec_bytes().len() as usize
            } else {
                INIT_CAPACITY
            },
    {
        let n = text.as_bytes().len();
        let cap = if n > INIT_CAPACITY {
            n
        } else {
            INIT_CAPACITY
        };
        let mut r = StringBuffer::with_capacity(cap);
        assert(Seq::<u8>::empty() + text.spec_bytes() =~= text.spec_bytes());
        r.push_str(text);
        r
    }

    /// Number of chunks.
    pub fn node_count(&self) -> (r: usize)
        ensures
            r == self.spec_node_count(),
    {
        self.nodes.len()
    }

    /// Capacity reserved for the first chunk.
    pub fn first_capacity(&self) -> (r: usize)
        requires
            self.wf(),
        ensures
            r == self.spec_first_capacity(),
    {
        self.nodes[0].cap
    }

    /// Appends `text`. It goes into the last chunk where that chunk has room
    /// for it; otherwise the last chunk is shrunk to its contents and a new
    /// chunk is opened, with twice the capacity of the previous one (at least
    /// `INIT_CAPACITY` doubled, at most `MAX_CAPACITY`), or the length of
    /// `text` where that is more.
    pub fn push_str(&mut self, text: &str)
        requires
            old(self).wf(),
            old(self)@.len() + text.spec_bytes().len() <= usize::MAX,
        ensures
            final(self).wf(),
            final(self)@ == old(self)@ + text.spec_bytes(),
            final(self).spec_node_count() == old(self).spec_node_count() + if old(
                self,
            ).spec_last_room() >= text.spec_bytes().len() {
                0int
            } else {
                1int
            },
            old(self).spec_last_room() >= text.spec_bytes().len() || old(self).spec_node_count()
                > 1 ==> final(self).spec_first_capacity() == old(self).spec_first_capacity(),
    {
        let bytes = text.as_bytes();
        proof {
            encode_utf8_valid_utf8(text@);
        }
        let ghost old_nodes = self.nodes@;
        let ghost n = old_nodes.len();
        let mut last = match self.nodes.pop() {
            Some(node) => node,
            None => {
                return;
            },
        };
        assert(self.nodes@ =~= old_nodes.drop_last());
        if last.cap - last.data.len() >= bytes.len() {
            let ghost before = last.data@;
            last.data.extend_from_slice(bytes);
            assert(last.data@ =~= before + bytes@);
            proof {
                valid_utf8_concat(before, bytes@);
            }
            self.nodes.push(last);
            proof {
                assert(self.nodes@.drop_last() =~= old_nodes.drop_last());
                assert(self.nodes@ =~= old_nodes.update(n - 1, self.nodes@[n - 1]));
                assert(concat_nodes(self.nodes@) =~= concat_nodes(old_nodes) + bytes@);
            }
        } else {
            last.cap = last.data.len();
            let doubled = if last.cap > INIT_CAPACITY {
                last.cap
            } else {
                INIT_CAPACITY
            };
            let next_cap = if doubled > MAX_CAPACITY / 2 {
                MAX_CAPACITY
            } else {
                doubled * 2
            };
            let next_cap = if next_cap > bytes.len() {
                next_cap
            } else {
                bytes.len()
            };
            let mut next = StringNode::with_capacity(next_cap);
            next.data.extend_from_slice(bytes);
            assert(next.data@ =~= bytes@);
            self.nodes.push(last);
            let ghost mid = self.nodes@;
            self.nodes.push(next);
            proof {
                assert(mid.drop_last() =~= old_nodes.drop_last());
                assert(concat_nodes(mid) =~= concat_nodes(old_nodes));
                assert(self.nodes@.drop_last() =~= mid);
                assert(concat_nodes(self.nodes@) =~= concat_nodes(old_nodes) + bytes@);
            }
        }
        self.len = self.len + bytes.len();
    }

    /// Returns the number of bytes since the start of the last line, that is
    /// after the last newline; the length of the buffer where it holds no
    /// newline.
    pub fn cur_offset(&self) -> (r: usize)
        requires
            self.wf(),
        ensures
            r == after_last_newline(self@),
    {
        let mut k: usize = self.nodes.len();
        let mut count: usize = 0;
        proof {
            assert(self.nodes@.subrange(0, k as int) =~= self.nodes@);
        }
        while k > 0
            invariant
                0 <= k <= self.nodes@.len(),
                self.wf(),
                after_last_newline(self@) == after_last_newline(
                    concat_nodes(self.nodes@.subrange(0, k as int)),
                ) + count,
                count + concat_nodes(self.nodes@.subrange(0, k as int)).len() == self@.len(),
            decreases k,
        {
            let data = &self.nodes[k - 1].data;
            let ghost before = concat_nodes(self.nodes@.subrange(0, k - 1));
            proof {
                assert(self.nodes@.subrange(0, k as int).drop_last() =~= self.nodes@.subrange(
                    0,
                    k - 1,
                ));
                assert(data@.subrange(0, data@.len() as int) =~= data@);
            }
            let mut j: usize = data.len();
            while j > 0
                invariant
                    0 <= j <= data@.len(),
                    self.wf(),
                    after_last_newline(self@) == after_last_newline(
                        before + data@.subrange(0, j as int),
                    ) + count,
                    count + (before + data@.subrange(0, j as int)).len() == self@.len(),
                decreases j,
            {
                let ghost cur = before + data@.subrange(0, j as int);
                assert(cur.last() == data@[j - 1]);
                if data[j - 1] == 10u8 {
                    return count;
                }
                assert(cur.drop_last() =~= before + data@.subrange(0, j - 1));
                count = count + 1;
                j = j - 1;
            }
            assert(before + data@.subrange(0, 0) =~= before);
            k = k - 1;
        }
        assert(concat_nodes(self.nodes@.subrange(0, 0)) =~= seq![]);
        count
    }

    /// Cuts the buffer down to its first `new_len` bytes; a length at or
    /// past the end leaves it as it is. Chunks after the one where the cut
    /// falls are dropped; a cut at the end of a chunk keeps that chunk.
    pub fn truncate(&mut self, new_len: usize)
        requires
            old(self).wf(),
            new_len < old(self)@.len() ==> is_char_boundary(old(self)@, new_len as int),
        ensures
            final(self).wf(),
            final(self)@ == if new_len < old(self)@.len() {
                old(self)@.subrange(0, new_len as int)
            } else {
                old(self)@
            },
            final(self).spec_node_count() <= old(self).spec_node_count(),
    {
        if new_len >= self.len {
            return;
        }
        proof {
            self.lemma_wf_valid_utf8();
        }
        let ghost old_nodes = self.nodes@;
        let ghost n = old_nodes.len() as int;
        let nlen = self.nodes.len();
        let mut k: usize = 0;
        let mut acc: usize = 0;
        loop
            invariant
                self.nodes@ == old_nodes,
                n == old_nodes.len(),
                n == nlen,
                self.wf(),
                0 <= k < n,
                acc == concat_nodes(old_nodes.subrange(0, k as int)).len(),
                acc < new_len || (k == 0 && acc == 0),
                new_len < self@.len(),
            ensures
                self.nodes@ == old_nodes,
                n == old_nodes.len(),
                n == nlen,
                self.wf(),
                0 <= k < n,
                acc == concat_nodes(old_nodes.subrange(0, k as int)).len(),
                acc <= new_len <= acc + old_nodes[k as int].data@.len(),
                new_len < self@.len(),
            decreases n - k,
        {
            let dl = self.nodes[k].data.len();
            proof {
                lemma_concat_split(old_nodes, k + 1);
                assert(old_nodes.subrange(0, k + 1).drop_last() =~= old_nodes.subrange(0, k as int));
            }
            if acc + dl >= new_len {
                break;
            }
            proof {
                if k + 1 == n {
                    assert(old_nodes.subrange(0, n) =~= old_nodes);
                }
            }
            acc = acc + dl;
            k = k + 1;
        }
        let ghost d = old_nodes[k as int].data@;
        let ghost before = concat_nodes(old_nodes.subrange(0, k as int));
        let j = new_len - acc;
        proof {
            lemma_concat_split(old_nodes, k as int);
            let rest = old_nodes.subrange(k as int, n);
            assert(rest.subrange(0, 1) =~= seq![old_nodes[k as int]]);
            lemma_concat_split(rest, 1);
            reveal_with_fuel(concat_nodes, 2);
            assert(rest.subrange(0, 1).drop_last() =~= Seq::<StringNode>::empty());
            let after = concat_nodes(rest.subrange(1, rest.len() as int));
            assert(old_nodes.subrange(0, k + 1).drop_last() =~= old_nodes.subrange(0, k as int));
            assert(self@ =~= before + d + after);
            assert(self@.subrange(0, new_len as int) =~= before + d.subrange(0, j as int));
            if 0 < j < d.len() {
                assert(self@[new_len as int] == d[j as int]);
                is_char_boundary_iff_not_is_continuation_byte(self@, new_len as int);
                is_char_boundary_iff_not_is_continuation_byte(d, j as int);
                valid_utf8_split(d, j as int);
            } else if j == d.len() {
                assert(d.subrange(0, j as int) =~= d);
            } else {
                assert(d.subrange(0, 0) =~= Seq::<u8>::empty());
            }
        }
        self.nodes.truncate(k + 1);
        assert(self.nodes@ =~= old_nodes.subrange(0, k + 1));
        let mut last = match self.nodes.pop() {
            Some(node) => node,
            None => {
                return;
            },
        };
        last.data.truncate(j);
        self.nodes.push(last);
        self.len = new_len;
        proof {
            assert(self.nodes@.drop_last() =~= old_nodes.subrange(0, k as int));
            assert(self@ =~= old(self)@.subrange(0, new_len as int));
        }
    }

    /// The bytes of the buffer in one vector.
    pub fn bytes(&self) -> (r: Vec<u8>)
        ensures
            r@ == self@,
    {
        let mut r: Vec<u8> = Vec::new();
        let mut k: usize = 0;
        while k < self.nodes.len()
            invariant
                0 <= k <= self.nodes@.len(),
                r@ == concat_nodes(self.nodes@.subrange(0, k as int)),
            decreases self.nodes@.len() - k,
        {
            r.extend_from_slice(self.nodes[k].data.as_slice());
            proof {
                assert(self.nodes@.subrange(0, k + 1).drop_last() =~= self.nodes@.subrange(
                    0,
                    k as int,
                ));
            }
            k = k + 1;
        }
        assert(self.nodes@.subrange(0, k as int) =~= self.nodes@);
        r
    }

    /// The text of the buffer.
    pub fn to_string(&self) -> (r: String)
        requires
            self.wf(),
        ensures
            r@ == decode_utf8(self@),
    {
        proof {
            self.lemma_wf_valid_utf8();
        }
        match string_from_utf8(self.bytes()) {
            Some(s) => s,
            None => String::new(),
        }
    }

    /// A cursor over the characters of the buffer and their byte offsets.
    pub fn chars<'a>(&'a self) -> (r: Chars<'a>)
        requires
            self.wf(),
        ensures
            r.wf(),
            r.rest() == char_indices(self@, 0),
    {
        Chars::new(self)
    }
}

impl<'a> Chars<'a> {
    /// Well-formedness: the cursor stands at a character boundary of a
    /// chunk of a well-formed buffer.
    pub closed spec fn wf(&self) -> bool {
        let nodes = self.buf.nodes@;
        &&& self.buf.wf()
        &&& self.cur_node < nodes.len()
        &&& self.cur_byte <= nodes[self.cur_node as int].data@.len()
        &&& self.abs_byte == concat_nodes(nodes.subrange(0, self.cur_node as int)).len()
            + self.cur_byte
        &&& valid_utf8(
            nodes[self.cur_node as int].data@.subrange(
                self.cur_byte as int,
                nodes[self.cur_node as int].data@.len() as int,
            ),
        )
    }

    /// What is left to read: the characters from the cursor on, with their
    /// offsets from the start of the buffer.
    pub closed spec fn rest(&self) -> Seq<(char, usize)> {
        char_indices(
            self.buf@.subrange(self.abs_byte as int, self.buf@.len() as int),
            self.abs_byte as int,
        )
    }

    proof fn lemma_split(&self)
        requires
            self.wf(),
        ensures
            ({
                let nodes = self.buf.nodes@;
                let k = self.cur_node as int;
                let d = nodes[k].data@;
                let tail = concat_nodes(nodes.subrange(k + 1, nodes.len() as int));
                &&& self.buf@.subrange(self.abs_byte as int, self.buf@.len() as int) == d.subrange(
                    self.cur_byte as int,
                    d.len() as int,
                ) + tail
                &&& valid_utf8(tail)
                &&& self.abs_byte + d.len() - self.cur_byte + tail.len() == self.buf@.len()
            }),
    {
        let nodes = self.buf.nodes@;
        let n = nodes.len() as int;
        let k = self.cur_node as int;
        let d = nodes[k].data@;
        lemma_concat_split(nodes, k);
        let rest = nodes.subrange(k, n);
        lemma_concat_split(rest, 1);
        reveal_with_fuel(concat_nodes, 2);
        assert(rest.subrange(0, 1).drop_last() =~= Seq::<StringNode>::empty());
        assert(rest.subrange(0, 1) =~= seq![nodes[k]]);
        assert(rest.subrange(1, rest.len() as int) =~= nodes.subrange(k + 1, n));
        let tail = concat_nodes(nodes.subrange(k + 1, n));
        let before = concat_nodes(nodes.subrange(0, k));
        assert(self.buf@ =~= before + d + tail);
        assert(self.buf@.subrange(self.abs_byte as int, self.buf@.len() as int) =~= d.subrange(
            self.cur_byte as int,
            d.len() as int,
        ) + tail);
        let sub = nodes.subrange(k + 1, n);
        assert forall|i: int| 0 <= i < sub.len() implies valid_utf8(#[trigger] sub[i].data@) by {
            assert(sub[i] == nodes[k + 1 + i]);
        }
        lemma_concat_valid(sub);
    }

    fn new(buf: &'a StringBuffer) -> (r: Chars<'a>)
        requires
            buf.wf(),
        ensures
            r.wf(),
            r.rest() == char_indices(buf@, 0),
    {
        let r = Chars { buf, cur_node: 0, cur_byte: 0, abs_byte: 0 };
        proof {
            assert(buf.nodes@.subrange(0, 0) =~= Seq::<StringNode>::empty());
            assert(buf.nodes@[0].data@.subrange(0, buf.nodes@[0].data@.len() as int)
                =~= buf.nodes@[0].data@);
            assert(buf@.subrange(0, buf@.len() as int) =~= buf@);
        }
        r
    }

    /// The next character and the offset of its first byte, or `None` at the
    /// end of the buffer.
    pub fn next(&mut self) -> (r: Option<(char, usize)>)
        requires
            old(self).wf(),
        ensures
            final(self).wf(),
            old(self).rest().len() == 0 ==> r is None && final(self).rest() == old(self).rest(),
            old(self).rest().len() > 0 ==> r == Some(old(self).rest()[0]) && final(self).rest()
                == old(self).rest().drop_first(),
    {
        let ghost start = self.rest();
        while self.cur_byte >= self.buf.nodes[self.cur_node].data.len()
            invariant
                self.wf(),
                self.buf == old(self).buf,
                self.rest() == start,
                start == old(self).rest(),
            decreases self.buf.nodes@.len() - self.cur_node,
        {
            proof {
                self.lemma_split();
            }
            if self.cur_node < self.buf.nodes.len() - 1 {
                proof {
                    let nodes = self.buf.nodes@;
                    let k = self.cur_node as int;
                    assert(nodes.subrange(0, k + 1).drop_last() =~= nodes.subrange(0, k));
                    let d2 = nodes[k + 1].data@;
                    assert(d2.subrange(0, d2.len() as int) =~= d2);
                }
                self.cur_node = self.cur_node + 1;
                self.cur_byte = 0;
            } else {
                proof {
                    let nodes = self.buf.nodes@;
                    assert(nodes.subrange(self.cur_node + 1, nodes.len() as int)
                        =~= Seq::<StringNode>::empty());
                    assert(self.buf@.subrange(self.abs_byte as int, self.buf@.len() as int)
                        =~= Seq::<u8>::empty());
                }
                return None;
            }
        }
        proof {
            self.lemma_split();
        }
        let ghost nodes = self.buf.nodes@;
        let ghost d = nodes[self.cur_node as int].data@;
        let ghost here = d.subrange(self.cur_byte as int, d.len() as int);
        let ghost tail = concat_nodes(nodes.subrange(self.cur_node + 1, nodes.len() as int));
        proof {
            lemma_char_indices_concat(here, tail, self.abs_byte as int);
        }
        let data = self.buf.nodes[self.cur_node].data.as_slice();
        match decode_char(data, self.cur_byte) {
            Some((c, w)) => {
                let abs = self.abs_byte;
                proof {
                    assert(d.subrange(self.cur_byte as int, d.len() as int) =~= data@.subrange(
                        self.cur_byte as int,
                        data@.len() as int,
                    ));
                    let rest2 = pop_first_scalar(here);
                    assert(rest2 =~= d.subrange(self.cur_byte + w, d.len() as int));
                    lemma_char_indices_concat(rest2, tail, self.abs_byte + w);
                    let whole = self.buf@.subrange(self.abs_byte as int, self.buf@.len() as int);
                    assert(whole == here + tail);
                    assert(w <= here.len());
                    assert(whole.subrange(w as int, whole.len() as int) =~= rest2 + tail);
                    assert(rest2 + tail =~= self.buf@.subrange(
                        self.abs_byte + w,
                        self.buf@.len() as int,
                    ));
                }
                self.cur_byte = self.cur_byte + w;
                self.abs_byte = self.abs_byte + w;
                proof {
                    assert(self.rest() =~= start.drop_first());
                }
                Some((c, abs))
            },
            None => {
                proof {
                    assert(here =~= data@.subrange(self.cur_byte as int, data@.len() as int));
                }
                None
            },
        }
    }
}

impl PartialEq for StringBuffer {
    fn eq(&self, other: &StringBuffer) -> (r: bool) {
        let a = self.bytes();
        let b = other.bytes();
        if a.len() != b.len() {
            return false;
        }
        let mut i: usize = 0;
        while i < a.len()
            invariant
                a@ == self@,
                b@ == other@,
                a@.len() == b@.len(),
                0 <= i <= a@.len(),
                a@.subrange(0, i as int) == b@.subrange(0, i as int),
            decreases a@.len() - i,
        {
            if a[i] != b[i] {
                assert(self@[i as int] != other@[i as int]);
                return false;
            }
            assert(a@.subrange(0, i + 1) =~= a@.subrange(0, i as int).push(a@[i as int]));
            assert(b@.subrange(0, i + 1) =~= b@.subrange(0, i as int).push(b@[i as int]));
            i = i + 1;
        }
        assert(a@ =~= a@.subrange(0, i as int));
        assert(b@ =~= b@.subrange(0, i as int));
        true
    }
}

impl vstd::std_specs::cmp::PartialEqSpecImpl for StringBuffer {
    open spec fn obeys_eq_spec() -> bool {
        true
    }

    open spec fn eq_spec(&self, other: &StringBuffer) -> bool {
        self@ == other@
    }
}

impl Eq for StringBuffer {

}

impl StringNode {
    /// A copy of this chunk, with the same reserved capacity.
    fn flat_clone(&self) -> (r: StringNode)
        ensures
            r.data@ == self.data@,
            r.cap == self.cap,
    {
        let mut data: Vec<u8> = Vec::with_capacity(self.cap);
        data.extend_from_slice(self.data.as_slice());
        StringNode { data, cap: self.cap }
    }
}

impl Clone for StringBuffer {
    /// A copy with the same chunks, sharing nothing with `self`.
    fn clone(&self) -> (r: StringBuffer)
        ensures
            r@ == self@,
            self.wf() ==> r.wf(),
            r.spec_node_count() == self.spec_node_count(),
    {
        let mut nodes: Vec<StringNode> = Vec::new();
        let mut k: usize = 0;
        while k < self.nodes.len()
            invariant
                0 <= k <= self.nodes@.len(),
                nodes@.len() == k,
                forall|i: int|
                    0 <= i < k ==> (#[trigger] nodes@[i]).data@ == self.nodes@[i].data@
                        && nodes@[i].cap == self.nodes@[i].cap,
            decreases self.nodes@.len() - k,
        {
            nodes.push(self.nodes[k].flat_clone());
            k = k + 1;
        }
        let r = StringBuffer { nodes, len: self.len };
        proof {
            lemma_concat_same(r.nodes@, self.nodes@);
        }
        r
    }
}

proof fn lemma_concat_same(a: Seq<StringNode>, b: Seq<StringNode>)
    requires
        a.len() == b.len(),
        forall|i: int| 0 <= i < a.len() ==> (#[trigger] a[i]).data@ == b[i].data@,
    ensures
        concat_nodes(a) == concat_nodes(b),
    decreases a.len(),
{
    if a.len() > 0 {
        lemma_concat_same(a.drop_last(), b.drop_last());
    }
}

impl core::str::FromStr for StringBuffer {
    type Err = ();

    fn from_str(text: &str) -> (r: Result<StringBuffer, ()>) {
        Ok(StringBuffer::from_text(text))
    }
}

} // verus!
