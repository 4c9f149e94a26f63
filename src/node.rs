//! The tree of a rope: leaves hold chunks of UTF-8 text, internal nodes hold
//! two subtrees and the length of the text beneath them. Every recursive
//! edit reports what became of the subtree through a `NodeAction`, so that
//! the parent can fix its own length without walking the tree again.
use vstd::prelude::*;
use vstd::utf8::*;

verus! {

broadcast use vstd::utf8::group_utf8_lib;

/// Largest number of bytes held by one leaf.
pub const MAX_LEAF: usize = 256;

/// Largest length of a rope: no allocation exceeds `isize::MAX` bytes.
pub const MAX_LEN: usize = isize::MAX as usize;

pub enum Node {
    Leaf(Vec<u8>),
    /// Left subtree, right subtree, and the length of the text of both.
    Internal(Box<Node>, Box<Node>, usize),
}

/// What a recursive edit did to a subtree.
pub enum NodeAction {
    /// Nothing changed.
    NoChange,
    /// The subtree became empty and should be discarded.
    Remove,
    /// The subtree kept its shape; its length changed by this much.
    Adjust(isize),
    /// The subtree is to be replaced by this node; the length changed by this much.
    Change(Box<Node>, isize),
}

impl Node {
    /// The text beneath this node.
    pub open spec fn text(&self) -> Seq<u8>
        decreases self,
    {
        match self {
            Node::Leaf(t) => t@,
            Node::Internal(l, r, _) => l.text() + r.text(),
        }
    }

    /// Number of levels beneath this node.
    pub open spec fn height(&self) -> nat
        decreases self,
    {
        match self {
            Node::Leaf(_) => 0,
            Node::Internal(l, r, _) => 1 + if l.height() >= r.height() {
                l.height()
            } else {
                r.height()
            },
        }
    }

    /// Sum of the lengths of the leaves beneath this node.
    pub open spec fn leaf_total(&self) -> nat
        decreases self,
    {
        match self {
            Node::Leaf(t) => t@.len(),
            Node::Internal(l, r, _) => l.leaf_total() + r.leaf_total(),
        }
    }

    /// Every leaf holds valid UTF-8 of at most `MAX_LEAF` bytes, and every
    /// internal node records the length of its text.
    pub open spec fn wf(&self) -> bool
        decreases self,
    {
        match self {
            Node::Leaf(t) => t@.len() <= MAX_LEAF && valid_utf8(t@),
            Node::Internal(l, r, len) => l.wf() && r.wf() && *len == l.text().len()
                + r.text().len(),
        }
    }

    /// The text of a well-formed node is valid UTF-8, and as long as the sum
    /// of its leaves.
    pub proof fn lemma_wf(&self)
        requires
            self.wf(),
        ensures
            valid_utf8(self.text()),
            self.text().len() == self.leaf_total(),
        decreases self,
    {
        match self {
            Node::Leaf(_) => {},
            Node::Internal(l, r, _) => {
                l.lemma_wf();
                r.lemma_wf();
                valid_utf8_concat(l.text(), r.text());
            },
        }
    }
}

/// The text that a subtree stands for once `act` is applied to it, `after`
/// being the subtree as the edit left it.
pub open spec fn action_text(after: Node, act: NodeAction) -> Seq<u8> {
    match act {
        NodeAction::Remove => seq![],
        NodeAction::Change(n, _) => n.text(),
        _ => after.text(),
    }
}

/// The subtree that stands once `act` is applied is well formed.
pub open spec fn action_wf(after: Node, act: NodeAction) -> bool {
    match act {
        NodeAction::Remove => true,
        NodeAction::Change(n, _) => n.wf(),
        _ => after.wf(),
    }
}

/// The length that `act` reports matches the text before and after.
pub open spec fn action_delta(act: NodeAction, before: int, after: int) -> bool {
    match act {
        NodeAction::NoChange => before == after,
        NodeAction::Remove => after == 0,
        NodeAction::Adjust(d) => d == after - before,
        NodeAction::Change(_, d) => d == after - before,
    }
}

/// `text` with `ins` put in at offset `o`.
pub open spec fn spliced(text: Seq<u8>, o: int, ins: Seq<u8>) -> Seq<u8> {
    text.subrange(0, o) + ins + text.subrange(o, text.len() as int)
}

/// `text` without the bytes of `[s, e)`.
pub open spec fn excised(text: Seq<u8>, s: int, e: int) -> Seq<u8> {
    text.subrange(0, s) + text.subrange(e, text.len() as int)
}

/// A boundary of the concatenation that falls within one part is a boundary
/// of that part.
pub proof fn lemma_boundary_in_part(a: Seq<u8>, b: Seq<u8>, i: int)
    requires
        valid_utf8(a),
        valid_utf8(b),
        0 <= i <= a.len() + b.len(),
        is_char_boundary(a + b, i),
    ensures
        i <= a.len() ==> is_char_boundary(a, i),
        i >= a.len() ==> is_char_boundary(b, i - a.len()),
{
    let ab = a + b;
    valid_utf8_concat(a, b);
    is_char_boundary_start_end_of_seq(a);
    is_char_boundary_start_end_of_seq(b);
    if i < a.len() {
        is_char_boundary_iff_not_is_continuation_byte(ab, i);
        is_char_boundary_iff_not_is_continuation_byte(a, i);
        assert(ab[i] == a[i]);
    }
    if a.len() <= i < a.len() + b.len() {
        is_char_boundary_iff_not_is_continuation_byte(ab, i);
        is_char_boundary_iff_not_is_continuation_byte(b, i - a.len());
        assert(ab[i] == b[i - a.len()]);
    }
    if i == a.len() + b.len() {
        assert(i - a.len() == b.len());
    }
}

/// A copy of `bytes[lo..hi]`.
fn copy_range(bytes: &Vec<u8>, lo: usize, hi: usize) -> (r: Vec<u8>)
    requires
        lo <= hi <= bytes@.len(),
    ensures
        r@ == bytes@.subrange(lo as int, hi as int),
{
    let mut r: Vec<u8> = Vec::with_capacity(hi - lo);
    let mut i = lo;
    while i < hi
        invariant
            lo <= i <= hi <= bytes@.len(),
            r@ == bytes@.subrange(lo as int, i as int),
        decreases hi - i,
    {
        r.push(bytes[i]);
        assert(r@ =~= bytes@.subrange(lo as int, i + 1));
        i = i + 1;
    }
    r
}

impl Node {
    /// A tree holding `bytes[lo..hi]`, its leaves split at character
    /// boundaries near the middle of each range.
    pub fn build(bytes: &Vec<u8>, lo: usize, hi: usize) -> (r: Node)
        requires
            lo <= hi <= bytes@.len(),
            valid_utf8(bytes@.subrange(lo as int, hi as int)),
        ensures
            r.wf(),
            r.text() == bytes@.subrange(lo as int, hi as int),
        decreases hi - lo,
    {
        if hi - lo <= MAX_LEAF {
            return Node::Leaf(copy_range(bytes, lo, hi));
        }
        let ghost sub = bytes@.subrange(lo as int, hi as int);
        let mut mid = lo + (hi - lo) / 2;
        while mid < hi && 0x80 <= bytes[mid] && bytes[mid] <= 0xbf
            invariant
                lo < mid <= hi <= bytes@.len(),
            decreases hi - mid,
        {
            mid = mid + 1;
        }
        if mid == hi {
            // No boundary after the middle: split after the first character.
            mid = match crate::utf8::decode_char(bytes.as_slice(), lo) {
                Some((_, w)) => lo + w,
                None => lo + 1,
            };
            proof {
                assert(sub =~= bytes@.subrange(lo as int, bytes@.len() as int).subrange(
                    0,
                    (hi - lo) as int,
                ));
                assert(valid_first_scalar(sub));
                assert(mid == lo + length_of_first_scalar(sub));
                assert(bytes@.subrange(mid as int, hi as int) =~= pop_first_scalar(sub));
                reveal_with_fuel(valid_utf8, 2);
                assert(bytes@.subrange(lo as int, mid as int) =~= take_first_scalar(sub));
                assert(valid_utf8(take_first_scalar(sub))) by {
                    assert(pop_first_scalar(take_first_scalar(sub)) =~= Seq::<u8>::empty());
                }
            }
        } else {
            proof {
                let i = mid - lo;
                assert(sub[i] == bytes@[mid as int]);
                is_char_boundary_iff_not_is_continuation_byte(sub, i);
                valid_utf8_split(sub, i);
                assert(sub.subrange(0, i) =~= bytes@.subrange(lo as int, mid as int));
                assert(sub.subrange(i, sub.len() as int) =~= bytes@.subrange(mid as int, hi as int));
            }
        }
        let left = Node::build(bytes, lo, mid);
        let right = Node::build(bytes, mid, hi);
        proof {
            assert(left.text() + right.text() =~= sub);
        }
        Node::Internal(Box::new(left), Box::new(right), hi - lo)
    }
}

/// Puts in place of `child` what `act` leaves of it.
fn settle(child: &mut Box<Node>, act: NodeAction)
    requires
        action_wf(**old(child), act),
    ensures
        final(child).wf(),
        final(child).text() == action_text(**old(child), act),
{
    match act {
        NodeAction::Remove => {
            *child = Box::new(Node::Leaf(Vec::new()));
        },
        NodeAction::Change(n, _) => {
            *child = n;
        },
        _ => {},
    }
}

impl Node {
    /// Appends the text beneath this node to `out`.
    pub fn collect(&self, out: &mut Vec<u8>)
        requires
            self.wf(),
        ensures
            final(out)@ == old(out)@ + self.text(),
        decreases self.height(),
    {
        match self {
            Node::Leaf(t) => {
                out.extend_from_slice(t.as_slice());
            },
            Node::Internal(l, r, _) => {
                let ghost o = out@;
                l.collect(out);
                r.collect(out);
                assert(out@ =~= o + self.text());
            },
        }
    }

    /// Length of the text beneath this node.
    pub fn text_len(&self) -> (r: usize)
        requires
            self.wf(),
        ensures
            r == self.text().len(),
    {
        match self {
            Node::Leaf(t) => t.len(),
            Node::Internal(_, _, len) => *len,
        }
    }

    /// Inserts `text` at `offset`. A leaf with room takes the text in place
    /// (`Adjust`); a leaf that would grow past `MAX_LEAF` is rebuilt as a
    /// subtree (`Change`).
    pub fn insert(&mut self, offset: usize, text: &[u8]) -> (act: NodeAction)
        requires
            old(self).wf(),
            offset <= old(self).text().len(),
            is_char_boundary(old(self).text(), offset as int),
            valid_utf8(text@),
            old(self).text().len() + text@.len() <= MAX_LEN,
        ensures
            action_wf(*final(self), act),
            action_text(*final(self), act) == spliced(old(self).text(), offset as int, text@),
            action_delta(
                act,
                old(self).text().len() as int,
                (old(self).text().len() + text@.len()) as int,
            ),
        decreases old(self).height(),
    {
        let ghost before = self.text();
        proof {
            self.lemma_wf();
        }
        match self {
            Node::Leaf(t) => {
                let n = t.len();
                proof {
                    valid_utf8_split(t@, offset as int);
                    valid_utf8_concat(t@.subrange(0, offset as int), text@);
                    valid_utf8_concat(t@.subrange(0, offset as int) + text@, t@.subrange(offset as int, n as int));
                }
                if n + text.len() <= MAX_LEAF {
                    let tail = t.split_off(offset);
                    t.extend_from_slice(text);
                    t.extend_from_slice(tail.as_slice());
                    assert(t@ =~= spliced(before, offset as int, text@));
                    NodeAction::Adjust(text.len() as isize)
                } else {
                    let mut all: Vec<u8> = Vec::with_capacity(n + text.len());
                    all.extend_from_slice(t.as_slice());
                    let tail = all.split_off(offset);
                    all.extend_from_slice(text);
                    all.extend_from_slice(tail.as_slice());
                    assert(all@ =~= spliced(before, offset as int, text@));
                    assert(all@.subrange(0, all@.len() as int) =~= all@);
                    let node = Node::build(&all, 0, all.len());
                    NodeAction::Change(Box::new(node), text.len() as isize)
                }
            },
            Node::Internal(l, r, len) => {
                let ll = l.text_len();
                let ghost lt = l.text();
                let ghost rt = r.text();
                proof {
                    l.lemma_wf();
                    r.lemma_wf();
                    lemma_boundary_in_part(lt, rt, offset as int);
                }
                if offset <= ll {
                    let act = l.insert(offset, text);
                    settle(l, act);
                } else {
                    let act = r.insert(offset - ll, text);
                    settle(r, act);
                }
                *len = *len + text.len();
                assert(l.text() + r.text() =~= spliced(before, offset as int, text@));
                let ln = l.text_len();
                let rn = r.text_len();
                if (ln > MAX_LEAF && (ln - MAX_LEAF) / 4 > rn) || (rn > MAX_LEAF && (rn - MAX_LEAF)
                    / 4 > ln) {
                    // One side outweighs the other: rebuild this subtree balanced.
                    let mut all: Vec<u8> = Vec::with_capacity(*len);
                    l.collect(&mut all);
                    r.collect(&mut all);
                    proof {
                        l.lemma_wf();
                        r.lemma_wf();
                        valid_utf8_concat(l.text(), r.text());
                        assert(all@.subrange(0, all@.len() as int) =~= all@);
                    }
                    let node = Node::build(&all, 0, all.len());
                    return NodeAction::Change(Box::new(node), text.len() as isize);
                }
                NodeAction::Adjust(text.len() as isize)
            },
        }
    }
}

/// Removes the bytes of `[start, end)` from a leaf's chunk.
fn leaf_remove(t: &mut Vec<u8>, start: usize, end: usize)
    requires
        valid_utf8(old(t)@),
        start <= end <= old(t)@.len(),
        is_char_boundary(old(t)@, start as int),
        is_char_boundary(old(t)@, end as int),
    ensures
        final(t)@ == excised(old(t)@, start as int, end as int),
        valid_utf8(final(t)@),
{
    let ghost before = t@;
    let n = t.len();
    proof {
        valid_utf8_split(t@, start as int);
        valid_utf8_split(t@, end as int);
        valid_utf8_concat(t@.subrange(0, start as int), t@.subrange(end as int, n as int));
    }
    let tail = t.split_off(end);
    t.truncate(start);
    t.extend_from_slice(tail.as_slice());
    assert(t@ =~= excised(before, start as int, end as int));
}

impl Node {
    /// Removes the bytes of `[start, end)`. A leaf that loses all its text
    /// reports `Remove`; an internal node that loses one subtree entirely is
    /// replaced by the other (`Change`).
    #[verifier::rlimit(40)]
    pub fn remove(&mut self, start: usize, end: usize) -> (act: NodeAction)
        requires
            old(self).wf(),
            start < end <= old(self).text().len(),
            is_char_boundary(old(self).text(), start as int),
            is_char_boundary(old(self).text(), end as int),
            old(self).text().len() <= MAX_LEN,
        ensures
            action_wf(*final(self), act),
            action_text(*final(self), act) == excised(
                old(self).text(),
                start as int,
                end as int,
            ),
            action_delta(
                act,
                old(self).text().len() as int,
                old(self).text().len() - (end - start),
            ),
        decreases old(self).height(),
    {
        let ghost before = self.text();
        proof {
            self.lemma_wf();
        }
        match self {
            Node::Leaf(t) => {
                let n = t.len();
                if start == 0 && end == n {
                    assert(excised(before, 0, n as int) =~= Seq::<u8>::empty());
                    return NodeAction::Remove;
                }
                leaf_remove(t, start, end);
                NodeAction::Adjust(-((end - start) as isize))
            },
            Node::Internal(l, r, len) => {
                let ll = l.text_len();
                let ghost lt = l.text();
                let ghost rt = r.text();
                proof {
                    l.lemma_wf();
                    r.lemma_wf();
                    lemma_boundary_in_part(lt, rt, start as int);
                    lemma_boundary_in_part(lt, rt, end as int);
                    is_char_boundary_start_end_of_seq(lt);
                    is_char_boundary_start_end_of_seq(rt);
                }
                let mut l_gone = false;
                let mut r_gone = false;
                if start < ll {
                    let le = if end < ll {
                        end
                    } else {
                        ll
                    };
                    let act = l.remove(start, le);
                    l_gone = match act {
                        NodeAction::Remove => true,
                        _ => false,
                    };
                    settle(l, act);
                } else {
                    assert(excised(lt, lt.len() as int, lt.len() as int) =~= lt);
                }
                if end > ll {
                    let rs = if start > ll {
                        start - ll
                    } else {
                        0
                    };
                    let act = r.remove(rs, end - ll);
                    r_gone = match act {
                        NodeAction::Remove => true,
                        _ => false,
                    };
                    settle(r, act);
                } else {
                    assert(excised(rt, 0, 0) =~= rt);
                }
                let removed = end - start;
                let ghost want = excised(before, start as int, end as int);
                assert(l.text() + r.text() =~= want);
                if l_gone && r_gone {
                    assert(want =~= Seq::<u8>::empty());
                    NodeAction::Remove
                } else if l_gone {
                    let mut other = Box::new(Node::Leaf(Vec::new()));
                    core::mem::swap(&mut other, r);
                    assert(want =~= other.text());
                    NodeAction::Change(other, -(removed as isize))
                } else if r_gone {
                    let mut other = Box::new(Node::Leaf(Vec::new()));
                    core::mem::swap(&mut other, l);
                    assert(want =~= other.text());
                    NodeAction::Change(other, -(removed as isize))
                } else if *len - removed <= MAX_LEAF {
                    // Small enough for one leaf: merge the two subtrees.
                    let mut merged: Vec<u8> = Vec::with_capacity(*len - removed);
                    l.collect(&mut merged);
                    r.collect(&mut merged);
                    proof {
                        l.lemma_wf();
                        r.lemma_wf();
                        valid_utf8_concat(l.text(), r.text());
                        assert(merged@ =~= want);
                    }
                    NodeAction::Change(Box::new(Node::Leaf(merged)), -(removed as isize))
                } else {
                    *len = *len - removed;
                    NodeAction::Adjust(-(removed as isize))
                }
            },
        }
    }
}

/// The bytes of a run of leaf chunks, in order.
pub open spec fn leaves_text<'a>(leaves: Seq<&'a Vec<u8>>) -> Seq<u8>
    decreases leaves.len(),
{
    if leaves.len() == 0 {
        seq![]
    } else {
        leaves_text(leaves.drop_last()) + leaves.last()@
    }
}

/// The bytes of two runs one after the other are those of the first, then
/// those of the second.
pub proof fn lemma_leaves_text_append<'a>(a: Seq<&'a Vec<u8>>, b: Seq<&'a Vec<u8>>)
    ensures
        leaves_text(a + b) == leaves_text(a) + leaves_text(b),
    decreases b.len(),
{
    if b.len() == 0 {
        assert(a + b =~= a);
        assert(leaves_text(a) + seq![] =~= leaves_text(a));
    } else {
        lemma_leaves_text_append(a, b.drop_last());
        assert((a + b).drop_last() =~= a + b.drop_last());
        assert(leaves_text(a + b) =~= leaves_text(a) + leaves_text(b));
    }
}

impl Node {
    /// Appends to `out`, in order, the chunks of the leaves that hold bytes
    /// of `[start, end)`, and returns how many bytes of the first of them
    /// come before `start` and how many of the last come after `end`.
    pub fn find_slice<'a>(&'a self, start: usize, end: usize, out: &mut Vec<&'a Vec<u8>>) -> (r: (
        usize,
        usize,
    ))
        requires
            self.wf(),
            start < end <= self.text().len(),
        ensures
            ({
                let added = final(out)@.subrange(old(out)@.len() as int, final(out)@.len() as int);
                &&& final(out)@.len() > old(out)@.len()
                &&& final(out)@.subrange(0, old(out)@.len() as int) == old(out)@
                &&& r.0 <= start
                &&& end + r.1 <= self.text().len()
                &&& leaves_text(added) == self.text().subrange(start - r.0, end + r.1)
                &&& r.0 < added[0]@.len()
                &&& r.1 < added.last()@.len()
                &&& forall|i: int|
                    0 <= i < added.len() ==> valid_utf8(#[trigger] added[i]@) && added[i]@.len()
                        <= MAX_LEAF
            }),
        decreases self.height(),
    {
        let ghost o = out@;
        match self {
            Node::Leaf(t) => {
                out.push(t);
                proof {
                    let added = out@.subrange(o.len() as int, out@.len() as int);
                    assert(added =~= seq![t]);
                    assert(added.drop_last() =~= Seq::<&Vec<u8>>::empty());
                    reveal_with_fuel(leaves_text, 2);
                    assert(leaves_text(added) =~= t@);
                    assert(added[0] == t);
                    assert(out@.subrange(0, o.len() as int) =~= o);
                    assert(t@.subrange(0, t@.len() as int) =~= t@);
                }
                (start, t.len() - end)
            },
            Node::Internal(l, r, _) => {
                let ll = l.text_len();
                if end <= ll {
                    let res = l.find_slice(start, end, out);
                    proof {
                        assert(self.text().subrange(start - res.0, end + res.1) =~= l.text().subrange(
                            start - res.0,
                            end + res.1,
                        ));
                    }
                    (res.0, res.1)
                } else if start >= ll {
                    let res = r.find_slice(start - ll, end - ll, out);
                    proof {
                        assert(self.text().subrange(start - res.0, end + res.1) =~= r.text().subrange(
                            start - ll - res.0,
                            end - ll + res.1,
                        ));
                    }
                    (res.0, res.1)
                } else {
                    let left = l.find_slice(start, ll, out);
                    let ghost mid = out@;
                    let right = r.find_slice(0, end - ll, out);
                    proof {
                        let a = mid.subrange(o.len() as int, mid.len() as int);
                        let b = out@.subrange(mid.len() as int, out@.len() as int);
                        let added = out@.subrange(o.len() as int, out@.len() as int);
                        assert(out@.subrange(0, mid.len() as int) == mid);
                        assert(added =~= a + b);
                        lemma_leaves_text_append(a, b);
                        assert(out@.subrange(0, o.len() as int) =~= mid.subrange(0, o.len() as int));
                        assert(added[0] == a[0]);
                        assert(added.last() == b.last());
                        assert forall|i: int| 0 <= i < added.len() implies valid_utf8(
                            #[trigger] added[i]@,
                        ) && added[i]@.len() <= MAX_LEAF by {
                            if i < a.len() {
                                assert(added[i] == a[i]);
                            } else {
                                assert(added[i] == b[i - a.len()]);
                            }
                        }
                        assert(self.text().subrange(start - left.0, end + right.1) =~= l.text().subrange(
                            start - left.0,
                            ll + left.1,
                        ) + r.text().subrange(0, end - ll + right.1));
                    }
                    (left.0, right.1)
                }
            },
        }
    }
}

/// Where two valid sequences meet is a character boundary of their
/// concatenation.
pub proof fn lemma_boundary_at_join(a: Seq<u8>, c: Seq<u8>)
    requires
        valid_utf8(a),
        valid_utf8(c),
    ensures
        valid_utf8(a + c),
        is_char_boundary(a + c, a.len() as int),
{
    valid_utf8_concat(a, c);
    if c.len() == 0 {
        assert(a + c =~= a);
        is_char_boundary_start_end_of_seq(a);
    } else {
        is_char_boundary_iff_not_is_continuation_byte(c, 0);
        is_char_boundary_iff_not_is_continuation_byte(a + c, a.len() as int);
        assert((a + c)[a.len() as int] == c[0]);
    }
}

/// A run of chunks splits into the run before `k` and the run from `k` on.
pub proof fn lemma_leaves_text_split<'a>(s: Seq<&'a Vec<u8>>, k: int)
    requires
        0 <= k <= s.len(),
    ensures
        leaves_text(s) == leaves_text(s.subrange(0, k)) + leaves_text(s.subrange(k, s.len() as int)),
        leaves_text(s.subrange(0, k)).len() <= leaves_text(s).len(),
{
    assert(s =~= s.subrange(0, k) + s.subrange(k, s.len() as int));
    lemma_leaves_text_append(s.subrange(0, k), s.subrange(k, s.len() as int));
}

/// Validity of every chunk of a run makes the run valid.
pub proof fn lemma_leaves_valid<'a>(s: Seq<&'a Vec<u8>>)
    requires
        forall|i: int| 0 <= i < s.len() ==> valid_utf8(#[trigger] s[i]@),
    ensures
        valid_utf8(leaves_text(s)),
    decreases s.len(),
{
    if s.len() > 0 {
        lemma_leaves_valid(s.drop_last());
        valid_utf8_concat(leaves_text(s.drop_last()), s.last()@);
    }
}

} // verus!
