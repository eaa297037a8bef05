//! Flamegraph building blocks: XML escaping, frame colouring inputs and
//! rendering settings.

use vstd::prelude::*;
use crate::text::{decimal, push_char, push_decimal, push_str, to_owned_string};
use crate::profiler::{ExecutionProfile, TaskStats, is_timeline};
use crate::parse::{
    char_is_space, chars_of, is_space, parse_unsigned_range, split_bounds, split_on, trim, trim_bounds, unsigned_value,
};
use vstd::string::StringSliceAdditionalSpecFns;

verus! {

/// Rendering settings of a flamegraph.
pub struct FlamegraphConfig {
    pub width: u32,
    pub row_height: u32,
    pub font_size: u32,
    pub title: String,
    /// "hot" (red/orange), "cool" (blue/green), or "purple".
    pub palette: String,
    pub min_width: u32,
}

impl Default for FlamegraphConfig {
    fn default() -> (c: Self)
        ensures
            c.width == 1200,
            c.row_height == 22,
            c.font_size == 12,
            c.title@ == "Flamegraph"@,
            c.palette@ == "hot"@,
            c.min_width == 2,
    {
        FlamegraphConfig {
            width: 1200,
            row_height: 22,
            font_size: 12,
            title: to_owned_string("Flamegraph"),
            palette: to_owned_string("hot"),
            min_width: 2,
        }
    }
}

/// The text that stands for `c` in XML character data and attributes.
pub open spec fn xml_char(c: char) -> Seq<char> {
    if c == '&' {
        "&amp;"@
    } else if c == '<' {
        "&lt;"@
    } else if c == '>' {
        "&gt;"@
    } else if c == '"' {
        "&quot;"@
    } else if c == '\'' {
        "&apos;"@
    } else {
        seq![c]
    }
}

/// `s` with each of `& < > " '` replaced by its XML entity.
pub open spec fn xml_escaped(s: Seq<char>) -> Seq<char>
    decreases s.len(),
{
    if s.len() == 0 {
        Seq::empty()
    } else {
        xml_escaped(s.drop_last()) + xml_char(s.last())
    }
}

/// Escapes `s` for use inside XML.
pub fn escape_xml(s: &str) -> (r: String)
    ensures
        r@ == xml_escaped(s@),
{
    let v = chars_of(s);
    let mut r = String::new();
    let mut i: usize = 0;
    while i < v.len()
        invariant
            0 <= i <= v@.len(),
            v@ == s@,
            r@ == xml_escaped(v@.subrange(0, i as int)),
        decreases v@.len() - i,
    {
        let c = v[i];
        if c == '&' {
            push_str(&mut r, "&amp;");
        } else if c == '<' {
            push_str(&mut r, "&lt;");
        } else if c == '>' {
            push_str(&mut r, "&gt;");
        } else if c == '"' {
            push_str(&mut r, "&quot;");
        } else if c == '\'' {
            push_str(&mut r, "&apos;");
        } else {
            push_char(&mut r, c);
        }
        proof {
            let sub = v@.subrange(0, i as int + 1);
            assert(sub.drop_last() =~= v@.subrange(0, i as int));
            assert(sub.last() == c);
            assert(r@ =~= xml_escaped(sub));
        }
        i = i + 1;
    }
    proof {
        assert(v@.subrange(0, v@.len() as int) =~= v@);
    }
    r
}

/// The multiplicative string hash (seed 5381, factor 31, wrapping at 32
/// bits) of a byte sequence.
pub open spec fn bytes_hash(b: Seq<u8>) -> u32
    decreases b.len(),
{
    if b.len() == 0 {
        5381u32
    } else {
        bytes_hash(b.drop_last()).wrapping_mul(31).wrapping_add(b.last() as u32)
    }
}

/// Hash of the UTF-8 bytes of a frame name.
pub fn name_hash(name: &str) -> (h: u32)
    ensures
        h == bytes_hash(name.spec_bytes()),
{
    let b = name.as_bytes();
    let mut h: u32 = 5381;
    let mut i: usize = 0;
    while i < b.len()
        invariant
            0 <= i <= b@.len(),
            b@ == name.spec_bytes(),
            h == bytes_hash(b@.subrange(0, i as int)),
        decreases b@.len() - i,
    {
        proof {
            let sub = b@.subrange(0, i as int + 1);
            assert(sub.drop_last() =~= b@.subrange(0, i as int));
        }
        h = h.wrapping_mul(31).wrapping_add(b[i] as u32);
        i = i + 1;
    }
    proof {
        assert(b@.subrange(0, b@.len() as int) =~= b@);
    }
    h
}

/// Hue (degrees), saturation and lightness (percent) of a frame's colour
/// for hash `h` under a palette.
pub open spec fn palette_hsl(h: u32, palette: Seq<char>) -> (u32, u32, u32) {
    let base = h % 360;
    let hue = if palette == "cool"@ {
        180 + base % 120
    } else if palette == "purple"@ {
        260 + base % 60
    } else {
        base % 60 + 10
    };
    (hue as u32, (60 + h % 30) as u32, (45 + h % 20) as u32)
}

fn str_equal(a: &str, b: &str) -> (r: bool)
    ensures
        r == (a@ == b@),
{
    let x = chars_of(a);
    let y = chars_of(b);
    if x.len() != y.len() {
        return false;
    }
    let mut i: usize = 0;
    while i < x.len()
        invariant
            0 <= i <= x@.len(),
            x@.len() == y@.len(),
            x@ == a@,
            y@ == b@,
            forall|j: int| 0 <= j < i ==> x@[j] == y@[j],
        decreases x@.len() - i,
    {
        if x[i] != y[i] {
            return false;
        }
        i = i + 1;
    }
    assert(x@ =~= y@);
    true
}

/// The hue, saturation and lightness of the colour of frame `name`: a
/// function of the name and palette alone.
pub fn frame_hsl(name: &str, palette: &str) -> (c: (u32, u32, u32))
    ensures
        c == palette_hsl(bytes_hash(name.spec_bytes()), palette@),
{
    let h = name_hash(name);
    let base = h % 360;
    let hue = if str_equal(palette, "cool") {
        180 + base % 120
    } else if str_equal(palette, "purple") {
        260 + base % 60
    } else {
        base % 60 + 10
    };
    (hue, 60 + h % 30, 45 + h % 20)
}

/// One frame of a flamegraph: a name, the samples of everything under it,
/// its own samples, and the positions of its child frames in the tree.
pub struct FrameNode {
    pub name: String,
    pub total: u64,
    pub self_samples: u64,
    pub children: Vec<usize>,
}

/// The frames of a flamegraph; the frame at position 0 is the root.
pub struct FrameTree {
    pub nodes: Vec<FrameNode>,
}

/// A frame as the contracts see it.
pub struct FrameView {
    pub name: Seq<char>,
    pub total: int,
    pub self_samples: int,
    pub children: Seq<usize>,
}

/// The view of a frame.
pub open spec fn node_view(n: FrameNode) -> FrameView {
    FrameView { name: n.name@, total: n.total as int, self_samples: n.self_samples as int, children: n.children@ }
}

/// The view of a list of frames.
pub open spec fn tree_view(nodes: Seq<FrameNode>) -> Seq<FrameView> {
    nodes.map_values(|n: FrameNode| node_view(n))
}

/// Every child position names a frame of the tree.
pub open spec fn links_valid(t: Seq<FrameView>) -> bool {
    forall|i: int, k: int|
        #![trigger t[i].children[k]]
        0 <= i < t.len() && 0 <= k < t[i].children.len() ==> t[i].children[k] < t.len()
}

/// Sum of the totals of the frames at positions `cs`.
pub open spec fn child_sum(t: Seq<FrameView>, cs: Seq<usize>) -> int
    decreases cs.len(),
{
    if cs.len() == 0 {
        0
    } else {
        child_sum(t, cs.drop_last()) + t[cs.last() as int].total
    }
}

/// Position in `cs` of the first frame named `name`, or -1.
pub open spec fn first_named(t: Seq<FrameView>, cs: Seq<usize>, name: Seq<char>) -> int
    decreases cs.len(),
{
    if cs.len() == 0 {
        -1
    } else if t[cs[0] as int].name == name {
        0
    } else {
        let r = first_named(t, cs.drop_first(), name);
        if r < 0 {
            -1
        } else {
            r + 1
        }
    }
}

/// `a - b`, or 0 when `b` is larger.
pub open spec fn sat_sub(a: int, b: int) -> int {
    if a >= b {
        a - b
    } else {
        0
    }
}

/// The tree with the own samples of frame `i` set to its total less the
/// totals of its children.
pub open spec fn with_self(t: Seq<FrameView>, i: int) -> Seq<FrameView> {
    t.update(i, FrameView { self_samples: sat_sub(t[i].total, child_sum(t, t[i].children)), ..t[i] })
}

/// The tree after `count` samples of the stack `path` were added under
/// frame `at`: along the path, an existing child of the same name (the
/// first one) takes the samples, else a new child frame is appended; each
/// frame on the path then has its own samples recomputed.
pub open spec fn insert_model(t: Seq<FrameView>, at: int, path: Seq<Seq<char>>, count: int) -> Seq<FrameView>
    decreases path.len(),
{
    if path.len() == 0 {
        t
    } else {
        let k = first_named(t, t[at].children, path[0]);
        if k >= 0 {
            let c = t[at].children[k] as int;
            let t1 = t.update(c, FrameView { total: t[c].total + count, ..t[c] });
            with_self(insert_model(t1, c, path.drop_first(), count), c)
        } else {
            let m = t.len() as int;
            let t1 = t.push(FrameView { name: path[0], total: count, self_samples: count, children: Seq::empty() });
            let t2 = with_self(insert_model(t1, m, path.drop_first(), count), m);
            t2.update(at, FrameView { children: t2[at].children.push(m as usize), ..t2[at] })
        }
    }
}

/// Every total and every sum of child totals fits in 64 bits.
pub open spec fn fits(t: Seq<FrameView>) -> bool {
    forall|i: int| 0 <= i < t.len() ==> 0 <= (#[trigger] t[i]).total <= u64::MAX && child_sum(t, t[i].children) <= u64::MAX
}

proof fn lemma_child_sum_grows(t: Seq<FrameView>, r: Seq<FrameView>, a: Seq<usize>, b: Seq<usize>)
    requires
        a.len() <= b.len(),
        forall|k: int| 0 <= k < a.len() ==> #[trigger] b[k] == a[k],
        forall|k: int| 0 <= k < b.len() ==> ((#[trigger] b[k]) as int) < r.len() && 0 <= r[b[k] as int].total,
        forall|k: int| 0 <= k < a.len() ==> ((#[trigger] a[k]) as int) < t.len() && t[a[k] as int].total <= r[a[k] as int].total,
    ensures
        child_sum(t, a) <= child_sum(r, b),
    decreases b.len(),
{
    if b.len() > a.len() {
        lemma_child_sum_grows(t, r, a, b.drop_last());
        assert(r[b.last() as int].total >= 0);
    } else if a.len() > 0 {
        lemma_child_sum_grows(t, r, a.drop_last(), b.drop_last());
        assert(b.last() == a.last());
    }
}

proof fn lemma_child_sum_same(t: Seq<FrameView>, r: Seq<FrameView>, cs: Seq<usize>)
    requires
        forall|k: int| 0 <= k < cs.len() ==> #[trigger] r[cs[k] as int].total == t[cs[k] as int].total,
    ensures
        child_sum(t, cs) == child_sum(r, cs),
    decreases cs.len(),
{
    if cs.len() > 0 {
        lemma_child_sum_same(t, r, cs.drop_last());
        assert(r[cs.last() as int].total == t[cs.last() as int].total);
    }
}

proof fn lemma_first_named_found(t: Seq<FrameView>, cs: Seq<usize>, name: Seq<char>)
    ensures
        -1 <= first_named(t, cs, name) < cs.len(),
        first_named(t, cs, name) >= 0 ==> t[cs[first_named(t, cs, name)] as int].name == name,
    decreases cs.len(),
{
    if cs.len() > 0 && t[cs[0] as int].name != name {
        lemma_first_named_found(t, cs.drop_first(), name);
    }
}

proof fn lemma_first_named_at(t: Seq<FrameView>, cs: Seq<usize>, name: Seq<char>, k: int)
    requires
        0 <= k <= cs.len(),
        forall|j: int| 0 <= j < k ==> #[trigger] t[cs[j] as int].name != name,
        k < cs.len() ==> t[cs[k] as int].name == name,
    ensures
        first_named(t, cs, name) == if k < cs.len() { k } else { -1 },
    decreases k,
{
    if k > 0 {
        let d = cs.drop_first();
        assert forall|j: int| 0 <= j < k - 1 implies #[trigger] t[d[j] as int].name != name by {
            assert(d[j] == cs[j + 1]);
        }
        assert(t[cs[0] as int].name != name);
        lemma_first_named_at(t, d, name, k - 1);
    }
}

/// Inserting keeps every child position valid, only adds frames (at most
/// one per stack entry), keeps names, and lets totals and child lists only
/// grow.
proof fn lemma_insert_grows(t: Seq<FrameView>, at: int, path: Seq<Seq<char>>, count: int)
    requires
        links_valid(t),
        0 <= at < t.len(),
        count >= 0,
        forall|i: int| 0 <= i < t.len() ==> 0 <= #[trigger] t[i].total,
    ensures
        ({
            let r = insert_model(t, at, path, count);
            &&& links_valid(r)
            &&& t.len() <= r.len() <= t.len() + path.len()
            &&& forall|i: int| 0 <= i < r.len() ==> 0 <= #[trigger] r[i].total
            &&& forall|i: int| 0 <= i < t.len() ==> (#[trigger] r[i]).name == t[i].name && r[i].total >= t[i].total
                && r[i].children.len() >= t[i].children.len()
                && forall|k: int| 0 <= k < t[i].children.len() ==> #[trigger] r[i].children[k] == t[i].children[k]
        }),
    decreases path.len(),
{
    if path.len() > 0 {
        let k = first_named(t, t[at].children, path[0]);
        lemma_first_named_found(t, t[at].children, path[0]);
        if k >= 0 {
            let c = t[at].children[k] as int;
            let t1 = t.update(c, FrameView { total: t[c].total + count, ..t[c] });
            assert(links_valid(t1));
            lemma_insert_grows(t1, c, path.drop_first(), count);
            let r1 = insert_model(t1, c, path.drop_first(), count);
            let r = with_self(r1, c);
            assert(r == insert_model(t, at, path, count));
            assert(links_valid(r)) by {
                assert forall|i: int, j: int|
                    #![trigger r[i].children[j]]
                    0 <= i < r.len() && 0 <= j < r[i].children.len() implies r[i].children[j] < r.len() by {
                    assert(r[i].children == r1[i].children);
                }
            }
        } else {
            let m = t.len() as int;
            let t1 = t.push(FrameView { name: path[0], total: count, self_samples: count, children: Seq::empty() });
            assert(links_valid(t1)) by {
                assert forall|i: int, j: int|
                    #![trigger t1[i].children[j]]
                    0 <= i < t1.len() && 0 <= j < t1[i].children.len() implies t1[i].children[j] < t1.len() by {
                    assert(i < t.len());
                    assert(t1[i] == t[i]);
                }
            }
            lemma_insert_grows(t1, m, path.drop_first(), count);
            let r1 = insert_model(t1, m, path.drop_first(), count);
            let t2 = with_self(r1, m);
            let r = t2.update(at, FrameView { children: t2[at].children.push(m as usize), ..t2[at] });
            assert(r == insert_model(t, at, path, count));
            assert(links_valid(r)) by {
                assert forall|i: int, j: int|
                    #![trigger r[i].children[j]]
                    0 <= i < r.len() && 0 <= j < r[i].children.len() implies r[i].children[j] < r.len() by {
                    if i == at {
                        if j < r1[at].children.len() {
                            assert(r[i].children[j] == r1[at].children[j]);
                        }
                    } else {
                        assert(r[i].children == r1[i].children);
                    }
                }
            }
            assert forall|i: int| 0 <= i < t.len() implies (#[trigger] r[i]).name == t[i].name && r[i].total >= t[i].total
                && r[i].children.len() >= t[i].children.len()
                && forall|q: int| 0 <= q < t[i].children.len() ==> #[trigger] r[i].children[q] == t[i].children[q] by {
                assert(t1[i] == t[i]);
                if i == at {
                    assert forall|q: int| 0 <= q < t[i].children.len() implies #[trigger] r[i].children[q] == t[i].children[q] by {
                        assert(r1[at].children[q] == t1[at].children[q]);
                    }
                }
            }
        }
    }
}

/// A tree that fits stays fitting when frames are dropped from what was
/// added: whatever an insertion leaves fitting fitted before it.
proof fn lemma_fits_before_insert(t: Seq<FrameView>, at: int, path: Seq<Seq<char>>, count: int)
    requires
        links_valid(t),
        0 <= at < t.len(),
        count >= 0,
        forall|i: int| 0 <= i < t.len() ==> 0 <= #[trigger] t[i].total,
        fits(insert_model(t, at, path, count)),
    ensures
        fits(t),
{
    lemma_insert_grows(t, at, path, count);
    let r = insert_model(t, at, path, count);
    assert forall|i: int| 0 <= i < t.len() implies 0 <= (#[trigger] t[i]).total <= u64::MAX && child_sum(t, t[i].children) <= u64::MAX by {
        assert(r[i].total >= t[i].total);
        assert forall|k: int| 0 <= k < t[i].children.len() implies ((#[trigger] t[i].children[k]) as int) < t.len()
            && t[t[i].children[k] as int].total <= r[t[i].children[k] as int].total by {
            assert(t[i].children[k] < t.len());
        }
        assert forall|k: int| 0 <= k < r[i].children.len() implies ((#[trigger] r[i].children[k]) as int) < r.len()
            && 0 <= r[r[i].children[k] as int].total by {
            assert(r[i].children[k] < r.len());
        }
        lemma_child_sum_grows(t, r, t[i].children, r[i].children);
    }
}

/// Views of a list of frame names from position `from` on.
pub open spec fn frames_view(path: Seq<Vec<char>>, from: int) -> Seq<Seq<char>> {
    path.subrange(from, path.len() as int).map_values(|v: Vec<char>| v@)
}

fn chars_equal(a: &Vec<char>, b: &Vec<char>) -> (r: bool)
    ensures
        r == (a@ == b@),
{
    if a.len() != b.len() {
        return false;
    }
    let mut i: usize = 0;
    while i < a.len()
        invariant
            0 <= i <= a@.len(),
            a@.len() == b@.len(),
            forall|j: int| 0 <= j < i ==> a@[j] == b@[j],
        decreases a@.len() - i,
    {
        if a[i] != b[i] {
            return false;
        }
        i = i + 1;
    }
    assert(a@ =~= b@);
    true
}

/// The string made of `v`'s characters.
pub fn string_of_chars(v: &Vec<char>) -> (s: String)
    ensures
        s@ == v@,
{
    let mut s = String::new();
    let mut i: usize = 0;
    while i < v.len()
        invariant
            0 <= i <= v@.len(),
            s@ == v@.subrange(0, i as int),
        decreases v@.len() - i,
    {
        push_char(&mut s, v[i]);
        assert(s@ =~= v@.subrange(0, i as int + 1));
        i = i + 1;
    }
    assert(v@.subrange(0, v@.len() as int) =~= v@);
    s
}

fn find_named_child(nodes: &Vec<FrameNode>, at: usize, name: &Vec<char>) -> (r: Option<usize>)
    requires
        at < nodes@.len(),
        links_valid(tree_view(nodes@)),
    ensures
        first_named(tree_view(nodes@), tree_view(nodes@)[at as int].children, name@) == match r {
            Some(k) => k as int,
            None => -1,
        },
{
    let ghost t = tree_view(nodes@);
    let cs = &nodes[at].children;
    assert(cs@ == t[at as int].children);
    let mut k: usize = 0;
    while k < cs.len()
        invariant
            0 <= k <= cs@.len(),
            at < nodes@.len(),
            t == tree_view(nodes@),
            links_valid(t),
            cs@ == t[at as int].children,
            forall|j: int| 0 <= j < k ==> #[trigger] t[cs@[j] as int].name != name@,
        decreases cs@.len() - k,
    {
        let c = cs[k];
        assert(t[at as int].children[k as int] < t.len());
        let cname = chars_of(nodes[c].name.as_str());
        assert(t[c as int].name == nodes@[c as int].name@);
        if chars_equal(&cname, name) {
            proof {
                lemma_first_named_at(t, cs@, name@, k as int);
            }
            return Some(k);
        }
        k = k + 1;
    }
    proof {
        lemma_first_named_at(t, cs@, name@, k as int);
    }
    None
}

fn children_total(nodes: &Vec<FrameNode>, i: usize) -> (s: u64)
    requires
        i < nodes@.len(),
        links_valid(tree_view(nodes@)),
        child_sum(tree_view(nodes@), tree_view(nodes@)[i as int].children) <= u64::MAX,
    ensures
        s == child_sum(tree_view(nodes@), tree_view(nodes@)[i as int].children),
{
    let ghost t = tree_view(nodes@);
    let cs = &nodes[i].children;
    assert(cs@ == t[i as int].children);
    let mut sum: u64 = 0;
    let mut k: usize = 0;
    while k < cs.len()
        invariant
            0 <= k <= cs@.len(),
            i < nodes@.len(),
            t == tree_view(nodes@),
            links_valid(t),
            cs@ == t[i as int].children,
            child_sum(t, cs@) <= u64::MAX,
            sum == child_sum(t, cs@.subrange(0, k as int)),
        decreases cs@.len() - k,
    {
        let c = cs[k];
        assert(t[i as int].children[k as int] < t.len());
        proof {
            let sub = cs@.subrange(0, k as int + 1);
            assert(sub.drop_last() =~= cs@.subrange(0, k as int));
            assert forall|q: int| 0 <= q < cs@.len() implies 0 <= #[trigger] t[cs@[q] as int].total by {
                assert(t[i as int].children[q] < t.len());
            }
            lemma_child_sum_prefix(t, cs@, k as int + 1);
        }
        sum = sum + nodes[c].total;
        k = k + 1;
    }
    assert(cs@.subrange(0, cs@.len() as int) =~= cs@);
    sum
}

proof fn lemma_child_sum_prefix(t: Seq<FrameView>, cs: Seq<usize>, n: int)
    requires
        0 <= n <= cs.len(),
        forall|q: int| 0 <= q < cs.len() ==> 0 <= #[trigger] t[cs[q] as int].total,
    ensures
        child_sum(t, cs.subrange(0, n)) <= child_sum(t, cs),
    decreases cs.len() - n,
{
    if n < cs.len() {
        lemma_child_sum_prefix(t, cs, n + 1);
        let sub = cs.subrange(0, n + 1);
        assert(sub.drop_last() =~= cs.subrange(0, n));
        assert(t[cs[n] as int].total >= 0);
    } else {
        assert(cs.subrange(0, n) =~= cs);
    }
}

/// Adds `count` samples of the stack `path[from..]` under frame `at`.
fn insert_path(nodes: &mut Vec<FrameNode>, at: usize, path: &Vec<Vec<char>>, from: usize, count: u64)
    requires
        at < old(nodes)@.len(),
        from <= path@.len(),
        links_valid(tree_view(old(nodes)@)),
        old(nodes)@.len() + (path@.len() - from) <= usize::MAX,
        fits(insert_model(tree_view(old(nodes)@), at as int, frames_view(path@, from as int), count as int)),
    ensures
        tree_view(final(nodes)@) == insert_model(tree_view(old(nodes)@), at as int, frames_view(path@, from as int), count as int),
    decreases path@.len() - from,
{
    let ghost t = tree_view(nodes@);
    let ghost p = frames_view(path@, from as int);
    if from == path.len() {
        assert(p.len() == 0);
        return;
    }
    proof {
        assert(p[0] == path@[from as int]@);
        assert(p.drop_first() =~= frames_view(path@, from as int + 1));
        assert forall|i: int| 0 <= i < t.len() implies 0 <= #[trigger] t[i].total by {}
        lemma_first_named_found(t, t[at as int].children, p[0]);
    }
    let found = find_named_child(nodes, at, &path[from]);
    match found {
        Some(k) => {
            let c = nodes[at].children[k];
            proof {
                assert(t[at as int].children[k as int] == c);
                assert(c < t.len());
            }
            let ghost t1 = t.update(c as int, FrameView { total: t[c as int].total + count, ..t[c as int] });
            proof {
                assert(links_valid(t1));
                assert forall|i: int| 0 <= i < t1.len() implies 0 <= #[trigger] t1[i].total by {}
                lemma_insert_grows(t1, c as int, p.drop_first(), count as int);
                let r1 = insert_model(t1, c as int, p.drop_first(), count as int);
                assert(with_self(r1, c as int)[c as int].total == r1[c as int].total);
                assert(fits(with_self(r1, c as int)));
                assert(r1[c as int].total <= u64::MAX);
            }
            let old_total = nodes[c].total;
            nodes[c].total = old_total + count;
            proof {
                assert(tree_view(nodes@) =~= t1);
                let r1 = insert_model(t1, c as int, p.drop_first(), count as int);
                let r = with_self(r1, c as int);
                assert forall|i: int| 0 <= i < r1.len() implies 0 <= (#[trigger] r1[i]).total <= u64::MAX && child_sum(r1, r1[i].children) <= u64::MAX by {
                    assert(r[i].total == r1[i].total);
                    assert(r[i].children == r1[i].children);
                    lemma_child_sum_same(r1, r, r1[i].children);
                }
            }
            insert_path(nodes, c, path, from + 1, count);
            let ghost r1 = tree_view(nodes@);
            proof {
                lemma_insert_grows(t1, c as int, p.drop_first(), count as int);
                assert(c < r1.len());
            }
            let s = children_total(nodes, c);
            let tot = nodes[c].total;
            let own = if tot >= s { tot - s } else { 0 };
            nodes[c].self_samples = own;
            proof {
                assert(tree_view(nodes@) =~= with_self(r1, c as int));
            }
        },
        None => {
            let m = nodes.len();
            let node = FrameNode { name: string_of_chars(&path[from]), total: count, self_samples: count, children: Vec::new() };
            let ghost nv = FrameView { name: p[0], total: count as int, self_samples: count as int, children: Seq::empty() };
            let ghost t1 = t.push(nv);
            nodes.push(node);
            proof {
                assert(tree_view(nodes@) =~= t1);
                assert(links_valid(t1)) by {
                    assert forall|i: int, j: int|
                        #![trigger t1[i].children[j]]
                        0 <= i < t1.len() && 0 <= j < t1[i].children.len() implies t1[i].children[j] < t1.len() by {
                        assert(i < t.len());
                        assert(t1[i] == t[i]);
                    }
                }
                assert forall|i: int| 0 <= i < t1.len() implies 0 <= #[trigger] t1[i].total by {}
                lemma_insert_grows(t1, m as int, p.drop_first(), count as int);
                let r1 = insert_model(t1, m as int, p.drop_first(), count as int);
                let t2 = with_self(r1, m as int);
                let r = t2.update(at as int, FrameView { children: t2[at as int].children.push(m), ..t2[at as int] });
                assert(r == insert_model(t, at as int, p, count as int));
                assert forall|i: int| 0 <= i < r1.len() implies 0 <= (#[trigger] r1[i]).total <= u64::MAX && child_sum(r1, r1[i].children) <= u64::MAX by {
                    assert(r[i].total == r1[i].total);
                    assert forall|q: int| 0 <= q < r.len() implies #[trigger] r[q].total == r1[q].total by {}
                    if i == at {
                        assert forall|k: int| 0 <= k < r1[i].children.len() implies #[trigger] r[i].children[k] == r1[i].children[k] by {}
                        assert forall|k: int| 0 <= k < r[i].children.len() implies ((#[trigger] r[i].children[k]) as int) < r.len()
                            && 0 <= r[r[i].children[k] as int].total by {
                            if k < r1[i].children.len() {
                                assert(r1[i].children[k] < r1.len());
                            }
                        }
                        assert forall|k: int| 0 <= k < r1[i].children.len() implies ((#[trigger] r1[i].children[k]) as int) < r1.len()
                            && r1[r1[i].children[k] as int].total <= r[r1[i].children[k] as int].total by {
                            assert(r1[i].children[k] < r1.len());
                        }
                        lemma_child_sum_grows(r1, r, r1[i].children, r[i].children);
                    } else {
                        assert(r[i].children == r1[i].children);
                        lemma_child_sum_same(r1, r, r1[i].children);
                    }
                }
            }
            insert_path(nodes, m, path, from + 1, count);
            let ghost r1 = tree_view(nodes@);
            proof {
                lemma_insert_grows(t1, m as int, p.drop_first(), count as int);
            }
            let s = children_total(nodes, m);
            let tot = nodes[m].total;
            let own = if tot >= s { tot - s } else { 0 };
            nodes[m].self_samples = own;
            let ghost t2 = tree_view(nodes@);
            proof {
                assert(t2 =~= with_self(r1, m as int));
            }
            nodes[at].children.push(m);
            proof {
                assert(tree_view(nodes@) =~= t2.update(at as int, FrameView { children: t2[at as int].children.push(m), ..t2[at as int] }));
            }
        },
    }
}

/// Position of the last white-space character of `s`, or -1.
pub open spec fn last_space(s: Seq<char>) -> int
    decreases s.len(),
{
    if s.len() == 0 {
        -1
    } else if is_space(s.last()) {
        s.len() - 1
    } else {
        last_space(s.drop_last())
    }
}

/// The stack and the sample count of one line of folded-stack text: the
/// trimmed line, unless empty or a `#` comment, split at its last white
/// space into frames separated by `;` (each trimmed) and a count.
pub open spec fn folded_entry(line: Seq<char>) -> Option<(Seq<Seq<char>>, u64)> {
    let l = trim(line);
    if l.len() == 0 || l[0] == '#' {
        None
    } else {
        let p = last_space(l);
        if p < 0 {
            None
        } else {
            match unsigned_value(trim(l.subrange(p + 1, l.len() as int)), u64::MAX as nat) {
                Some(n) => Some((split_on(l.subrange(0, p), ';').map_values(|f: Seq<char>| trim(f)), n as u64)),
                None => None,
            }
        }
    }
}

/// The entries of the lines that give one, in order.
pub open spec fn folded_entries(lines: Seq<Seq<char>>) -> Seq<(Seq<Seq<char>>, u64)>
    decreases lines.len(),
{
    if lines.len() == 0 {
        Seq::empty()
    } else {
        match folded_entry(lines.last()) {
            Some(e) => folded_entries(lines.drop_last()).push(e),
            None => folded_entries(lines.drop_last()),
        }
    }
}

/// The tree after the entries' samples were added under the root, in order.
pub open spec fn fold_model(t: Seq<FrameView>, es: Seq<(Seq<Seq<char>>, u64)>) -> Seq<FrameView>
    decreases es.len(),
{
    if es.len() == 0 {
        t
    } else {
        insert_model(fold_model(t, es.drop_last()), 0, es.last().0, es.last().1 as int)
    }
}

/// Number of frames over all the entries.
pub open spec fn total_frames(es: Seq<(Seq<Seq<char>>, u64)>) -> nat
    decreases es.len(),
{
    if es.len() == 0 {
        0
    } else {
        total_frames(es.drop_last()) + es.last().0.len()
    }
}

/// A tree holding only the root frame `all`.
pub open spec fn root_only() -> Seq<FrameView> {
    seq![FrameView { name: "all"@, total: 0, self_samples: 0, children: Seq::empty() }]
}

/// The entries of folded-stack text.
pub open spec fn text_entries(text: Seq<char>) -> Seq<(Seq<Seq<char>>, u64)> {
    folded_entries(split_on(text, '\n'))
}

/// The tree of folded-stack text: every entry added under the root, whose
/// total is then the sum of its children's.
pub open spec fn folded_tree(text: Seq<char>) -> Seq<FrameView> {
    let t = fold_model(root_only(), text_entries(text));
    t.update(0, FrameView { total: child_sum(t, t[0].children), ..t[0] })
}

/// The text's samples fit in 64-bit counters all along, and its frames in
/// a vector.
pub open spec fn folded_fits(text: Seq<char>) -> bool {
    let t = fold_model(root_only(), text_entries(text));
    &&& fits(t)
    &&& child_sum(t, t[0].children) <= u64::MAX
    &&& 1 + total_frames(text_entries(text)) <= usize::MAX
}

proof fn lemma_fold_grows(es: Seq<(Seq<Seq<char>>, u64)>)
    ensures
        ({
            let t = fold_model(root_only(), es);
            &&& links_valid(t)
            &&& 1 <= t.len() <= 1 + total_frames(es)
            &&& forall|i: int| 0 <= i < t.len() ==> 0 <= #[trigger] t[i].total
        }),
    decreases es.len(),
{
    if es.len() == 0 {
        let t = root_only();
        assert(links_valid(t)) by {
            assert forall|i: int, j: int|
                #![trigger t[i].children[j]]
                0 <= i < t.len() && 0 <= j < t[i].children.len() implies t[i].children[j] < t.len() by {}
        }
    } else {
        lemma_fold_grows(es.drop_last());
        let t0 = fold_model(root_only(), es.drop_last());
        lemma_insert_grows(t0, 0, es.last().0, es.last().1 as int);
    }
}

proof fn lemma_fold_prefix_fits(es: Seq<(Seq<Seq<char>>, u64)>, j: int)
    requires
        0 <= j <= es.len(),
        fits(fold_model(root_only(), es)),
    ensures
        fits(fold_model(root_only(), es.subrange(0, j))),
        total_frames(es.subrange(0, j)) <= total_frames(es),
    decreases es.len() - j,
{
    if j == es.len() {
        assert(es.subrange(0, j) =~= es);
    } else {
        lemma_fold_grows(es.drop_last());
        lemma_fits_before_insert(fold_model(root_only(), es.drop_last()), 0, es.last().0, es.last().1 as int);
        lemma_fold_prefix_fits(es.drop_last(), j);
        assert(es.drop_last().subrange(0, j) =~= es.subrange(0, j));
    }
}

/// Reads folded-stack text (`a;b;c 42` per line) into a frame tree: the
/// samples of each line's stack are added under the root `all`, frames of
/// the same name under the same parent merge, and the root's total is the
/// sum of its children's.
pub fn parse_folded(text: &str) -> (tree: FrameTree)
    requires
        folded_fits(text@),
    ensures
        tree_view(tree.nodes@) == folded_tree(text@),
{
    let v = chars_of(text);
    let pieces = split_bounds(&v, 0, v.len(), '\n');
    let ghost lines = split_on(text@, '\n');
    let ghost es = text_entries(text@);
    proof {
        assert(v@.subrange(0, v@.len() as int) =~= v@);
    }
    let mut nodes: Vec<FrameNode> = Vec::new();
    nodes.push(FrameNode { name: to_owned_string("all"), total: 0, self_samples: 0, children: Vec::new() });
    proof {
        assert(tree_view(nodes@) =~= root_only());
    }
    let mut j: usize = 0;
    while j < pieces.len()
        invariant
            v@ == text@,
            pieces@.len() == lines.len(),
            lines == split_on(text@, '\n'),
            es == folded_entries(lines),
            forall|k: int| 0 <= k < pieces@.len() ==> 0 <= (#[trigger] pieces@[k]).0 <= pieces@[k].1 <= v@.len()
                && v@.subrange(pieces@[k].0 as int, pieces@[k].1 as int) == lines[k],
            folded_fits(text@),
            0 <= j <= pieces@.len(),
            tree_view(nodes@) == fold_model(root_only(), folded_entries(lines.subrange(0, j as int))),
            folded_entries(lines.subrange(0, j as int)) == es.subrange(0, folded_entries(lines.subrange(0, j as int)).len() as int),
            folded_entries(lines.subrange(0, j as int)).len() <= es.len(),
        decreases pieces@.len() - j,
    {
        let ghost done = folded_entries(lines.subrange(0, j as int));
        let ghost line = lines[j as int];
        proof {
            let sub = lines.subrange(0, j as int + 1);
            assert(sub.drop_last() =~= lines.subrange(0, j as int));
            assert(sub.last() == line);
            lemma_entries_prefix(lines, j as int + 1);
        }
        let (a, b) = pieces[j];
        let (x, y) = trim_bounds(&v, a, b);
        let ghost l = v@.subrange(x as int, y as int);
        proof {
            assert(l == trim(line));
        }
        if x < y && v[x] != '#' {
            assert(l[0] == v@[x as int]);
            let mut p = y;
            while p > x && !char_is_space(v[p - 1])
                invariant
                    x <= p <= y,
                    y <= v@.len(),
                    l == v@.subrange(x as int, y as int),
                    forall|q: int| p <= q < y ==> !is_space(#[trigger] v@[q]),
                decreases p - x,
            {
                p = p - 1;
            }
            proof {
                lemma_last_space(l, p - x - 1);
            }
            if p > x {
                let sp = p - 1;
                let (c0, c1) = trim_bounds(&v, sp + 1, y);
                proof {
                    assert(v@.subrange(sp + 1, y as int) =~= l.subrange(sp - x + 1, l.len() as int));
                }
                let n = parse_unsigned_range(&v, c0, c1, u64::MAX);
                match n {
                    Some(count) => {
                        let fb = split_bounds(&v, x, sp, ';');
                        let ghost parts = split_on(v@.subrange(x as int, sp as int), ';');
                        proof {
                            assert(v@.subrange(x as int, sp as int) =~= l.subrange(0, sp - x));
                        }
                        let mut frames: Vec<Vec<char>> = Vec::new();
                        let mut q: usize = 0;
                        while q < fb.len()
                            invariant
                                0 <= q <= fb@.len(),
                                fb@.len() == parts.len(),
                                forall|k: int| 0 <= k < fb@.len() ==> x <= (#[trigger] fb@[k]).0 <= fb@[k].1 <= sp
                                    && v@.subrange(fb@[k].0 as int, fb@[k].1 as int) == parts[k],
                                sp <= v@.len(),
                                frames@.len() == q,
                                forall|k: int| 0 <= k < q ==> (#[trigger] frames@[k])@ == trim(parts[k]),
                            decreases fb@.len() - q,
                        {
                            let (f0, f1) = fb[q];
                            let (g0, g1) = trim_bounds(&v, f0, f1);
                            let mut f: Vec<char> = Vec::new();
                            let mut w = g0;
                            while w < g1
                                invariant
                                    g0 <= w <= g1,
                                    g1 <= v@.len(),
                                    f@ == v@.subrange(g0 as int, w as int),
                                decreases g1 - w,
                            {
                                f.push(v[w]);
                                w = w + 1;
                            }
                            frames.push(f);
                            q = q + 1;
                        }
                        let ghost entry = (parts.map_values(|f: Seq<char>| trim(f)), count);
                        proof {
                            assert(folded_entry(line) == Some(entry));
                            assert(frames_view(frames@, 0) =~= entry.0);
                            assert(folded_entries(lines.subrange(0, j as int + 1)) == done.push(entry));
                            lemma_fold_prefix_fits(es, done.len() as int + 1);
                            assert(es.subrange(0, done.len() as int + 1) =~= done.push(entry));
                            lemma_fold_grows(done);
                            assert(done.push(entry).drop_last() =~= done);
                            assert(total_frames(done.push(entry)) == total_frames(done) + frames@.len());
                        }
                        insert_path(&mut nodes, 0, &frames, 0, count);
                        proof {
                            assert(es.subrange(0, done.len() as int + 1).drop_last() =~= es.subrange(0, done.len() as int));
                        }
                    },
                    None => {
                        proof {
                            assert(folded_entry(line) is None);
                        }
                    },
                }
            } else {
                proof {
                    assert(folded_entry(line) is None);
                }
            }
        } else {
            proof {
                assert(folded_entry(line) is None);
            }
        }
        j = j + 1;
    }
    proof {
        assert(lines.subrange(0, lines.len() as int) =~= lines);
        lemma_fold_grows(es);
    }
    let sum = children_total(&nodes, 0);
    nodes[0].total = sum;
    proof {
        let t = fold_model(root_only(), es);
        assert(tree_view(nodes@) =~= t.update(0, FrameView { total: child_sum(t, t[0].children), ..t[0] }));
    }
    FrameTree { nodes }
}

proof fn lemma_last_space(l: Seq<char>, p: int)
    requires
        -1 <= p < l.len(),
        forall|q: int| p < q < l.len() ==> !is_space(#[trigger] l[q]),
        p >= 0 ==> is_space(l[p]),
    ensures
        last_space(l) == p,
    decreases l.len(),
{
    if l.len() > 0 && p < l.len() - 1 {
        let d = l.drop_last();
        assert forall|q: int| p < q < d.len() implies !is_space(#[trigger] d[q]) by {
            assert(d[q] == l[q]);
        }
        if p >= 0 {
            assert(d[p] == l[p]);
        }
        lemma_last_space(d, p);
    }
}

proof fn lemma_entries_prefix(lines: Seq<Seq<char>>, j: int)
    requires
        0 <= j <= lines.len(),
    ensures
        folded_entries(lines.subrange(0, j)) == folded_entries(lines).subrange(0, folded_entries(lines.subrange(0, j)).len() as int),
        folded_entries(lines.subrange(0, j)).len() <= folded_entries(lines).len(),
    decreases lines.len() - j,
{
    if j == lines.len() {
        assert(lines.subrange(0, j) =~= lines);
        assert(folded_entries(lines).subrange(0, folded_entries(lines).len() as int) =~= folded_entries(lines));
    } else {
        lemma_entries_prefix(lines.drop_last(), j);
        assert(lines.drop_last().subrange(0, j) =~= lines.subrange(0, j));
        let e = folded_entries(lines.drop_last());
        let f = folded_entries(lines.subrange(0, j));
        match folded_entry(lines.last()) {
            Some(x) => {
                assert(folded_entries(lines) == e.push(x));
                assert(e.push(x).subrange(0, f.len() as int) =~= e.subrange(0, f.len() as int));
            },
            None => {},
        }
    }
}

/// `r` extends `t`: no frame is lost or renamed, totals only grow, child
/// lists only grow at their end, and every total stays non-negative.
pub open spec fn grows(t: Seq<FrameView>, r: Seq<FrameView>) -> bool {
    &&& t.len() <= r.len()
    &&& links_valid(r)
    &&& forall|i: int| 0 <= i < r.len() ==> 0 <= #[trigger] r[i].total
    &&& forall|i: int| 0 <= i < t.len() ==> (#[trigger] r[i]).name == t[i].name && r[i].total >= t[i].total
        && r[i].children.len() >= t[i].children.len()
        && forall|k: int| 0 <= k < t[i].children.len() ==> #[trigger] r[i].children[k] == t[i].children[k]
}

proof fn lemma_grows_trans(a: Seq<FrameView>, b: Seq<FrameView>, c: Seq<FrameView>)
    requires
        grows(a, b),
        grows(b, c),
    ensures
        grows(a, c),
{
    assert forall|i: int| 0 <= i < a.len() implies (#[trigger] c[i]).name == a[i].name && c[i].total >= a[i].total
        && c[i].children.len() >= a[i].children.len()
        && forall|k: int| 0 <= k < a[i].children.len() ==> #[trigger] c[i].children[k] == a[i].children[k] by {
        assert(b[i].name == a[i].name);
        assert forall|k: int| 0 <= k < a[i].children.len() implies #[trigger] c[i].children[k] == a[i].children[k] by {
            assert(b[i].children[k] == a[i].children[k]);
        }
    }
}

proof fn lemma_grows_refl(t: Seq<FrameView>)
    requires
        links_valid(t),
        forall|i: int| 0 <= i < t.len() ==> 0 <= #[trigger] t[i].total,
    ensures
        grows(t, t),
{
}

proof fn lemma_with_self_grows(t: Seq<FrameView>, i: int)
    requires
        links_valid(t),
        0 <= i < t.len(),
        forall|j: int| 0 <= j < t.len() ==> 0 <= #[trigger] t[j].total,
    ensures
        grows(t, with_self(t, i)),
        forall|j: int| 0 <= j < t.len() ==> (#[trigger] with_self(t, i)[j]).total == t[j].total
            && with_self(t, i)[j].children == t[j].children,
{
    let r = with_self(t, i);
    assert forall|a: int, k: int|
        #![trigger r[a].children[k]]
        0 <= a < r.len() && 0 <= k < r[a].children.len() implies r[a].children[k] < r.len() by {
        assert(r[a].children == t[a].children);
    }
}

proof fn lemma_fits_down(t: Seq<FrameView>, r: Seq<FrameView>)
    requires
        links_valid(t),
        forall|i: int| 0 <= i < t.len() ==> 0 <= #[trigger] t[i].total,
        grows(t, r),
        fits(r),
    ensures
        fits(t),
{
    assert forall|i: int| 0 <= i < t.len() implies 0 <= (#[trigger] t[i]).total <= u64::MAX && child_sum(t, t[i].children) <= u64::MAX by {
        assert(r[i].total >= t[i].total);
        assert forall|k: int| 0 <= k < t[i].children.len() implies ((#[trigger] t[i].children[k]) as int) < t.len()
            && t[t[i].children[k] as int].total <= r[t[i].children[k] as int].total by {
            assert(t[i].children[k] < t.len());
        }
        assert forall|k: int| 0 <= k < r[i].children.len() implies ((#[trigger] r[i].children[k]) as int) < r.len()
            && 0 <= r[r[i].children[k] as int].total by {
            assert(r[i].children[k] < r.len());
        }
        lemma_child_sum_grows(t, r, t[i].children, r[i].children);
    }
}

/// A duration in nanoseconds as whole microseconds, kept to 64 bits.
pub open spec fn micros(ns: u128) -> int {
    ((ns / 1000) as u64) as int
}

/// The frame label of a task: its name (or `task`), then ` [id=<id>]`.
pub open spec fn task_label(t: TaskStats) -> Seq<char> {
    (match t.name {
        Some(n) => n@,
        None => "task"@,
    }) + " [id="@ + decimal(t.task_id as nat) + "]"@
}

/// Microseconds of the tasks of worker `w`, in the order recorded.
pub open spec fn worker_micros(s: Seq<TaskStats>, w: usize) -> int
    decreases s.len(),
{
    if s.len() == 0 {
        0
    } else {
        worker_micros(s.drop_last(), w) + if s.last().worker_id == w { micros(s.last().duration_ns) } else { 0 }
    }
}

/// The frames of the tasks at positions `r` added, in that order, under
/// frame `m`.
pub open spec fn add_task_frames(t: Seq<FrameView>, m: int, s: Seq<TaskStats>, r: Seq<int>) -> Seq<FrameView>
    decreases r.len(),
{
    if r.len() == 0 {
        t
    } else {
        insert_model(add_task_frames(t, m, s, r.drop_last()), m, seq![task_label(s[r.last()])], micros(s[r.last()].duration_ns))
    }
}

/// The frame of worker `w` added under the root, unless its tasks took no
/// time, with its tasks' frames (in timeline `r`) under it.
pub open spec fn add_worker_frames(t: Seq<FrameView>, s: Seq<TaskStats>, w: usize, r: Seq<int>) -> Seq<FrameView> {
    let us = worker_micros(s, w);
    if us == 0 {
        t
    } else {
        let m = t.len() as int;
        let t1 = t.push(FrameView { name: "Worker "@ + decimal(w as nat), total: us, self_samples: us, children: Seq::empty() });
        let t2 = t1.update(0, FrameView { children: t1[0].children.push(m as usize), ..t1[0] });
        with_self(add_task_frames(t2, m, s, r), m)
    }
}

/// The frames of workers `0 .. n` added in order.
pub open spec fn add_all_workers(t: Seq<FrameView>, s: Seq<TaskStats>, rs: Seq<Seq<int>>, n: nat) -> Seq<FrameView>
    decreases n,
{
    if n == 0 {
        t
    } else {
        add_worker_frames(add_all_workers(t, s, rs, (n - 1) as nat), s, (n - 1) as usize, rs[n - 1])
    }
}

/// A tree holding only the root `all` with the given total.
pub open spec fn profile_root(total: int) -> Seq<FrameView> {
    seq![FrameView { name: "all"@, total: total, self_samples: total, children: Seq::empty() }]
}

/// `rs` holds the timeline of each of the profile's workers.
pub open spec fn timelines_of(p: ExecutionProfile, rs: Seq<Seq<int>>) -> bool {
    &&& rs.len() == p.num_workers
    &&& forall|w: int| 0 <= w < p.num_workers ==> #[trigger] is_timeline(p.task_stats@, w as usize, rs[w])
}

/// The frame tree of a profile whose workers have timelines `rs`.
pub open spec fn profile_tree(p: ExecutionProfile, rs: Seq<Seq<int>>) -> Seq<FrameView> {
    let t = add_all_workers(profile_root(micros(p.total_duration_ns)), p.task_stats@, rs, p.num_workers as nat);
    with_self(t, 0)
}

/// Building the profile's frame tree keeps every counter within 64 bits
/// and every frame position within a vector.
pub open spec fn profile_fits(p: ExecutionProfile) -> bool {
    &&& forall|w: usize| w < p.num_workers ==> #[trigger] worker_micros(p.task_stats@, w) <= u64::MAX
    &&& forall|rs: Seq<Seq<int>>| #[trigger] timelines_of(p, rs) ==> {
        let t = add_all_workers(profile_root(micros(p.total_duration_ns)), p.task_stats@, rs, p.num_workers as nat);
        fits(t) && t.len() < usize::MAX
    }
}

proof fn lemma_insert_grows_rel(t: Seq<FrameView>, at: int, path: Seq<Seq<char>>, count: int)
    requires
        links_valid(t),
        0 <= at < t.len(),
        count >= 0,
        forall|i: int| 0 <= i < t.len() ==> 0 <= #[trigger] t[i].total,
    ensures
        grows(t, insert_model(t, at, path, count)),
{
    lemma_insert_grows(t, at, path, count);
}

proof fn lemma_task_frames_grow(t: Seq<FrameView>, m: int, s: Seq<TaskStats>, r: Seq<int>)
    requires
        links_valid(t),
        0 <= m < t.len(),
        forall|i: int| 0 <= i < t.len() ==> 0 <= #[trigger] t[i].total,
    ensures
        grows(t, add_task_frames(t, m, s, r)),
    decreases r.len(),
{
    if r.len() == 0 {
        lemma_grows_refl(t);
    } else {
        lemma_task_frames_grow(t, m, s, r.drop_last());
        let t1 = add_task_frames(t, m, s, r.drop_last());
        lemma_insert_grows_rel(t1, m, seq![task_label(s[r.last()])], micros(s[r.last()].duration_ns));
        lemma_grows_trans(t, t1, add_task_frames(t, m, s, r));
    }
}

proof fn lemma_worker_frames_grow(t: Seq<FrameView>, s: Seq<TaskStats>, w: usize, r: Seq<int>)
    requires
        links_valid(t),
        1 <= t.len(),
        forall|i: int| 0 <= i < t.len() ==> 0 <= #[trigger] t[i].total,
    ensures
        grows(t, add_worker_frames(t, s, w, r)),
{
    let us = worker_micros(s, w);
    lemma_worker_micros_nonneg(s, w);
    if us == 0 {
        lemma_grows_refl(t);
    } else {
        let m = t.len() as int;
        let t1 = t.push(FrameView { name: "Worker "@ + decimal(w as nat), total: us, self_samples: us, children: Seq::empty() });
        let t2 = t1.update(0, FrameView { children: t1[0].children.push(m as usize), ..t1[0] });
        assert(links_valid(t2)) by {
            assert forall|i: int, k: int|
                #![trigger t2[i].children[k]]
                0 <= i < t2.len() && 0 <= k < t2[i].children.len() implies t2[i].children[k] < t2.len() by {
                if i == 0 {
                    if k < t[0].children.len() {
                        assert(t2[0].children[k] == t[0].children[k]);
                    }
                } else if i < t.len() {
                    assert(t2[i] == t[i]);
                }
            }
        }
        assert(grows(t, t2)) by {
            assert forall|i: int| 0 <= i < t.len() implies (#[trigger] t2[i]).name == t[i].name && t2[i].total >= t[i].total
                && t2[i].children.len() >= t[i].children.len()
                && forall|k: int| 0 <= k < t[i].children.len() ==> #[trigger] t2[i].children[k] == t[i].children[k] by {
                if i == 0 {
                    assert forall|k: int| 0 <= k < t[i].children.len() implies #[trigger] t2[i].children[k] == t[i].children[k] by {}
                }
            }
        }
        lemma_task_frames_grow(t2, m, s, r);
        let t3 = add_task_frames(t2, m, s, r);
        lemma_with_self_grows(t3, m);
        lemma_grows_trans(t2, t3, with_self(t3, m));
        lemma_grows_trans(t, t2, with_self(t3, m));
    }
}

proof fn lemma_worker_micros_nonneg(s: Seq<TaskStats>, w: usize)
    ensures
        worker_micros(s, w) >= 0,
    decreases s.len(),
{
    if s.len() > 0 {
        lemma_worker_micros_nonneg(s.drop_last(), w);
    }
}

proof fn lemma_all_workers_from_start(t: Seq<FrameView>, s: Seq<TaskStats>, rs: Seq<Seq<int>>, b: nat)
    requires
        links_valid(t),
        1 <= t.len(),
        forall|i: int| 0 <= i < t.len() ==> 0 <= #[trigger] t[i].total,
    ensures
        grows(t, add_all_workers(t, s, rs, b)),
    decreases b,
{
    if b == 0 {
        lemma_grows_refl(t);
    } else {
        lemma_all_workers_from_start(t, s, rs, (b - 1) as nat);
        let x = add_all_workers(t, s, rs, (b - 1) as nat);
        lemma_worker_frames_grow(x, s, (b - 1) as usize, rs[b - 1]);
        lemma_grows_trans(t, x, add_all_workers(t, s, rs, b));
    }
}

proof fn lemma_all_workers_grow(t: Seq<FrameView>, s: Seq<TaskStats>, rs: Seq<Seq<int>>, a: nat, b: nat)
    requires
        links_valid(t),
        1 <= t.len(),
        forall|i: int| 0 <= i < t.len() ==> 0 <= #[trigger] t[i].total,
        a <= b,
    ensures
        grows(add_all_workers(t, s, rs, a), add_all_workers(t, s, rs, b)),
    decreases b,
{
    lemma_all_workers_from_start(t, s, rs, a);
    if a == b {
        lemma_grows_refl(add_all_workers(t, s, rs, a));
    } else {
        lemma_all_workers_grow(t, s, rs, a, (b - 1) as nat);
        lemma_all_workers_from_start(t, s, rs, (b - 1) as nat);
        let x = add_all_workers(t, s, rs, (b - 1) as nat);
        lemma_worker_frames_grow(x, s, (b - 1) as usize, rs[b - 1]);
        lemma_grows_trans(add_all_workers(t, s, rs, a), x, add_all_workers(t, s, rs, b));
    }
}

/// Positions as integers.
pub open spec fn positions_view(r: Seq<usize>) -> Seq<int> {
    r.map_values(|p: usize| p as int)
}

proof fn lemma_task_frames_split(t: Seq<FrameView>, m: int, s: Seq<TaskStats>, r: Seq<int>, k: int)
    requires
        0 <= k <= r.len(),
    ensures
        add_task_frames(t, m, s, r) == add_task_frames(add_task_frames(t, m, s, r.subrange(0, k)), m, s, r.subrange(k, r.len() as int)),
    decreases r.len() - k,
{
    if k == r.len() {
        assert(r.subrange(0, k) =~= r);
        assert(r.subrange(k, r.len() as int) =~= Seq::<int>::empty());
    } else {
        lemma_task_frames_split(t, m, s, r.drop_last(), k);
        assert(r.drop_last().subrange(0, k) =~= r.subrange(0, k));
        assert(r.drop_last().subrange(k, r.drop_last().len() as int) =~= r.subrange(k, r.len() as int).drop_last());
        assert(r.subrange(k, r.len() as int).last() == r.last());
    }
}

proof fn lemma_worker_micros_prefix(s: Seq<TaskStats>, w: usize, i: int)
    requires
        0 <= i <= s.len(),
    ensures
        worker_micros(s.subrange(0, i), w) <= worker_micros(s, w),
    decreases s.len() - i,
{
    if i < s.len() {
        lemma_worker_micros_prefix(s, w, i + 1);
        let p = s.subrange(0, i + 1);
        assert(p.drop_last() =~= s.subrange(0, i));
    } else {
        assert(s.subrange(0, i) =~= s);
    }
}

/// The flamegraph frames of a profile: under the root `all` (its total the
/// run's microseconds), one frame per worker whose tasks took any time
/// (`Worker <id>`, its total their microseconds), and under each the
/// frames of its tasks by start, tasks of the same label sharing a frame.
pub fn frame_tree_from_profile(profile: &ExecutionProfile) -> (tree: FrameTree)
    requires
        profile_fits(*profile),
    ensures
        exists|rs: Seq<Seq<int>>| #[trigger] timelines_of(*profile, rs) && tree_view(tree.nodes@) == profile_tree(*profile, rs),
{
    let s = &profile.task_stats;
    let n = profile.num_workers;
    let mut tls: Vec<Vec<usize>> = Vec::new();
    let mut w: usize = 0;
    while w < n
        invariant
            0 <= w <= n,
            n == profile.num_workers,
            tls@.len() == w,
            forall|k: int| 0 <= k < w ==> #[trigger] is_timeline(profile.task_stats@, k as usize, positions_view(tls@[k]@)),
        decreases n - w,
    {
        let r = profile.timeline_positions(w);
        tls.push(r);
        w = w + 1;
    }
    let ghost rs = Seq::new(n as nat, |k: int| positions_view(tls@[k]@));
    let total_us = (profile.total_duration_ns / 1000) as u64;
    let ghost root = profile_root(micros(profile.total_duration_ns));
    let ghost fin = add_all_workers(root, s@, rs, n as nat);
    proof {
        assert(timelines_of(*profile, rs)) by {
            assert forall|k: int| 0 <= k < n implies #[trigger] is_timeline(profile.task_stats@, k as usize, rs[k]) by {}
        }
        assert(fits(fin) && fin.len() < usize::MAX);
        assert(links_valid(root)) by {
            assert forall|i: int, k: int|
                #![trigger root[i].children[k]]
                0 <= i < root.len() && 0 <= k < root[i].children.len() implies root[i].children[k] < root.len() by {}
        }
    }
    let mut nodes: Vec<FrameNode> = Vec::new();
    nodes.push(FrameNode { name: to_owned_string("all"), total: total_us, self_samples: total_us, children: Vec::new() });
    proof {
        assert(tree_view(nodes@) =~= root);
    }
    let mut w: usize = 0;
    while w < n
        invariant
            0 <= w <= n,
            n == profile.num_workers,
            s == &profile.task_stats,
            tls@.len() == n,
            rs.len() == n,
            forall|k: int| 0 <= k < n ==> #[trigger] rs[k] == positions_view(tls@[k]@),
            profile_fits(*profile),
            root == profile_root(micros(profile.total_duration_ns)),
            timelines_of(*profile, rs),
            links_valid(root),
            fin == add_all_workers(root, s@, rs, n as nat),
            fits(fin),
            fin.len() < usize::MAX,
            tree_view(nodes@) == add_all_workers(root, s@, rs, w as nat),
        decreases n - w,
    {
        let ghost t = tree_view(nodes@);
        proof {
            lemma_all_workers_from_start(root, s@, rs, w as nat);
            lemma_all_workers_grow(root, s@, rs, (w + 1) as nat, n as nat);
        }
        let mut us: u64 = 0;
        let mut i: usize = 0;
        while i < s.len()
            invariant
                0 <= i <= s@.len(),
                us == worker_micros(s@.subrange(0, i as int), w),
                worker_micros(s@, w) <= u64::MAX,
            decreases s@.len() - i,
        {
            proof {
                let p = s@.subrange(0, i as int + 1);
                assert(p.drop_last() =~= s@.subrange(0, i as int));
                lemma_worker_micros_prefix(s@, w, i as int + 1);
                lemma_worker_micros_nonneg(s@.subrange(0, i as int), w);
            }
            if s[i].worker_id == w {
                let d = (s[i].duration_ns / 1000) as u64;
                us = us + d;
            }
            i = i + 1;
        }
        proof {
            assert(s@.subrange(0, s@.len() as int) =~= s@);
        }
        if us == 0 {
            w = w + 1;
        } else {
            let m = nodes.len();
            let mut wname = to_owned_string("Worker ");
            push_decimal(&mut wname, w);
            nodes.push(FrameNode { name: wname, total: us, self_samples: us, children: Vec::new() });
            nodes[0].children.push(m);
            let ghost t1 = t.push(FrameView { name: "Worker "@ + decimal(w as nat), total: us as int, self_samples: us as int, children: Seq::empty() });
            let ghost t2 = t1.update(0, FrameView { children: t1[0].children.push(m), ..t1[0] });
            proof {
                assert(tree_view(nodes@) =~= t2);
                assert(links_valid(t2)) by {
                    assert forall|a: int, k: int|
                        #![trigger t2[a].children[k]]
                        0 <= a < t2.len() && 0 <= k < t2[a].children.len() implies t2[a].children[k] < t2.len() by {
                        if a == 0 {
                            if k < t[0].children.len() {
                                assert(t2[0].children[k] == t[0].children[k]);
                            }
                        } else if a < t.len() {
                            assert(t2[a] == t[a]);
                        }
                    }
                }
                assert forall|a: int| 0 <= a < t2.len() implies 0 <= #[trigger] t2[a].total by {}
            }
            let r = &tls[w];
            let ghost rw = rs[w as int];
            proof {
                assert(is_timeline(profile.task_stats@, w as usize, rs[w as int]));
                assert forall|q: int| 0 <= q < r@.len() implies 0 <= #[trigger] r@[q] < s@.len() by {
                    assert(rw[q] == r@[q] as int);
                }
            }
            let ghost full = add_task_frames(t2, m as int, s@, rw);
            proof {
                assert(add_worker_frames(t, s@, w, rw) == with_self(full, m as int));
                assert(add_all_workers(root, s@, rs, (w + 1) as nat) == with_self(full, m as int));
                lemma_task_frames_grow(t2, m as int, s@, rw);
                lemma_with_self_grows(full, m as int);
            }
            let mut k: usize = 0;
            while k < r.len()
                invariant
                    0 <= k <= r@.len(),
                    rw == positions_view(r@),
                    s == &profile.task_stats,
                    m < t2.len(),
                    links_valid(t2),
                    forall|a: int| 0 <= a < t2.len() ==> 0 <= #[trigger] t2[a].total,
                    full == add_task_frames(t2, m as int, s@, rw),
                    grows(with_self(full, m as int), fin),
                    grows(full, with_self(full, m as int)),
                    fits(fin),
                    fin.len() < usize::MAX,
                    forall|q: int| 0 <= q < r@.len() ==> 0 <= #[trigger] r@[q] < s@.len(),
                    tree_view(nodes@) == add_task_frames(t2, m as int, s@, rw.subrange(0, k as int)),
                decreases r@.len() - k,
            {
                let task = &s[r[k]];
                let mut label = String::new();
                match &task.name {
                    Some(nm) => push_str(&mut label, nm.as_str()),
                    None => push_str(&mut label, "task"),
                }
                push_str(&mut label, " [id=");
                push_decimal(&mut label, task.task_id);
                push_str(&mut label, "]");
                let lc = chars_of(label.as_str());
                let mut path: Vec<Vec<char>> = Vec::new();
                path.push(lc);
                let d = (task.duration_ns / 1000) as u64;
                let ghost cur = tree_view(nodes@);
                let ghost pre = rw.subrange(0, k as int);
                let ghost nxt = rw.subrange(0, k as int + 1);
                proof {
                    assert(rw[k as int] == r@[k as int] as int);
                    assert(label@ == task_label(s@[rw[k as int]]));
                    assert(frames_view(path@, 0) =~= seq![task_label(s@[nxt.last()])]);
                    assert(nxt.drop_last() =~= pre);
                    lemma_task_frames_grow(t2, m as int, s@, pre);
                    lemma_task_frames_grow(t2, m as int, s@, nxt);
                    let after = add_task_frames(t2, m as int, s@, nxt);
                    lemma_task_frames_split(t2, m as int, s@, rw, k as int + 1);
                    lemma_task_frames_grow(after, m as int, s@, rw.subrange(k as int + 1, rw.len() as int));
                    lemma_grows_trans(after, full, with_self(full, m as int));
                    lemma_grows_trans(after, with_self(full, m as int), fin);
                    lemma_fits_down(after, fin);
                    assert(after == insert_model(cur, m as int, seq![task_label(s@[nxt.last()])], d as int));
                    lemma_insert_grows_rel(cur, m as int, seq![task_label(s@[nxt.last()])], d as int);
                    assert(cur.len() <= after.len());
                    assert(after.len() <= fin.len());
                }
                insert_path(&mut nodes, m, &path, 0, d);
                k = k + 1;
            }
            proof {
                assert(rw.subrange(0, rw.len() as int) =~= rw);
                assert(tree_view(nodes@) == full);
                lemma_fits_down(full, fin);
            }
            let sum = children_total(&nodes, m);
            let tot = nodes[m].total;
            let own = if tot >= sum { tot - sum } else { 0 };
            nodes[m].self_samples = own;
            proof {
                assert(tree_view(nodes@) =~= with_self(full, m as int));
            }
            w = w + 1;
        }
    }
    proof {
        lemma_all_workers_from_start(root, s@, rs, n as nat);
    }
    let sum = children_total(&nodes, 0);
    let tot = nodes[0].total;
    let own = if tot >= sum { tot - sum } else { 0 };
    nodes[0].self_samples = own;
    proof {
        assert(tree_view(nodes@) =~= with_self(fin, 0));
        assert(tree_view(nodes@) == profile_tree(*profile, rs));
    }
    FrameTree { nodes }
}

} // verus!
