//! Relative paths and the key by which they are told apart and ordered.
//!
//! Two texts name the same path when they have the same components, whatever
//! the number of slashes between them, and paths are ordered component by
//! component. Both are decided on a path's key, a sequence of numbers that is
//! computed once from its components.

use crate::order::{code_order, compare_codes, lemma_order_equal, Order};
use crate::text::same_text;
use vstd::prelude::*;

verus! {

/// The components of a relative path written as `text`: what
/// `relative_path::RelativePath::iter` yields for it, in order.
pub uninterp spec fn path_components(text: Seq<char>) -> Seq<Seq<char>>;

/// Splits a path into its components.
///
/// Trusted: stands for `relative_path::RelativePath::iter`, which cuts the
/// text at `/`, passes over empty pieces and hands out the rest in order.
/// The contract names that result and claims nothing more of it.
#[verifier::external_body]
pub(crate) fn split_path(text: &str) -> (parts: Vec<String>)
    ensures
        parts.deep_view() == path_components(text@),
{
    relative_path::RelativePath::new(text).iter().map(|part| part.to_owned()).collect()
}

/// The number that opens a component's code: `.` comes before `..`, and both
/// come before every other component.
pub open spec fn part_rank(part: Seq<char>) -> u32 {
    if part == seq!['.'] {
        1
    } else if part == seq!['.', '.'] {
        2
    } else {
        3
    }
}

/// A character's number inside a code; zero is kept for the end of a component.
pub open spec fn char_code(c: char) -> u32 {
    (c as u32 + 1) as u32
}

/// The code of one component: its rank, its characters, and a closing zero.
pub open spec fn part_code(part: Seq<char>) -> Seq<u32> {
    seq![part_rank(part)] + char_codes(part) + seq![0u32]
}

/// The codes of the components, one after the other.
pub open spec fn parts_code(parts: Seq<Seq<char>>) -> Seq<u32>
    decreases parts.len(),
{
    if parts.len() == 0 {
        Seq::empty()
    } else {
        parts_code(parts.drop_last()) + part_code(parts.last())
    }
}

/// The key of the path written as `text`.
pub open spec fn path_key(text: Seq<char>) -> Seq<u32> {
    parts_code(path_components(text))
}

/// How the path written as `a` stands to the one written as `b`.
pub open spec fn path_order(a: Seq<char>, b: Seq<char>) -> Order {
    code_order(path_key(a), path_key(b))
}

/// The numbers of the characters of a component.
pub open spec fn char_codes(part: Seq<char>) -> Seq<u32> {
    part.map_values(|c: char| char_code(c))
}

/// How one component stands to another: `.` comes first, `..` second, and
/// all others follow in the dictionary order of their characters.
pub open spec fn part_order(a: Seq<char>, b: Seq<char>) -> Order {
    if part_rank(a) < part_rank(b) {
        Order::Less
    } else if part_rank(a) > part_rank(b) {
        Order::Greater
    } else {
        code_order(char_codes(a), char_codes(b))
    }
}

/// How one list of components stands to another: the first place where they
/// differ decides, and a list comes before each of its proper extensions.
pub open spec fn parts_order(a: Seq<Seq<char>>, b: Seq<Seq<char>>) -> Order
    decreases a.len(),
{
    if a.len() == 0 {
        if b.len() == 0 {
            Order::Equal
        } else {
            Order::Less
        }
    } else if b.len() == 0 {
        Order::Greater
    } else if part_order(a[0], b[0]) == Order::Equal {
        parts_order(a.drop_first(), b.drop_first())
    } else {
        part_order(a[0], b[0])
    }
}

/// The code of a list of components starts with the code of the first.
proof fn lemma_parts_code_front(parts: Seq<Seq<char>>)
    requires
        parts.len() > 0,
    ensures
        parts_code(parts) == part_code(parts[0]) + parts_code(parts.drop_first()),
    decreases parts.len(),
{
    if parts.len() == 1 {
        assert(parts.drop_last() =~= Seq::<Seq<char>>::empty());
        assert(parts.drop_first() =~= Seq::<Seq<char>>::empty());
        assert(parts_code(parts) =~= part_code(parts[0]) + parts_code(parts.drop_first()));
    } else {
        let most = parts.drop_last();
        lemma_parts_code_front(most);
        assert(most.drop_first() =~= parts.drop_first().drop_last());
        assert(most[0] == parts[0]);
        assert(parts.drop_first().last() == parts.last());
        assert(parts_code(parts) =~= part_code(parts[0]) + parts_code(parts.drop_first()));
    }
}

/// Sequences of numbers above zero, each closed by a zero and followed by
/// more: the order of the two wholes is the order of the two sequences, and
/// where these are equal, the order of what follows.
proof fn lemma_closed_order(u: Seq<u32>, x: Seq<u32>, v: Seq<u32>, y: Seq<u32>)
    requires
        forall|i: int| 0 <= i < u.len() ==> #[trigger] u[i] != 0,
        forall|i: int| 0 <= i < v.len() ==> #[trigger] v[i] != 0,
    ensures
        code_order(u + seq![0u32] + x, v + seq![0u32] + y) == if code_order(u, v) == Order::Equal {
            code_order(x, y)
        } else {
            code_order(u, v)
        },
    decreases u.len(),
{
    let left = u + seq![0u32] + x;
    let right = v + seq![0u32] + y;
    if u.len() == 0 {
        if v.len() == 0 {
            assert(left.drop_first() =~= x);
            assert(right.drop_first() =~= y);
        } else {
            assert(right[0] == v[0]);
        }
    } else if v.len() == 0 {
        assert(left[0] == u[0]);
    } else {
        assert(left[0] == u[0]);
        assert(right[0] == v[0]);
        if u[0] == v[0] {
            assert(left.drop_first() =~= u.drop_first() + seq![0u32] + x);
            assert(right.drop_first() =~= v.drop_first() + seq![0u32] + y);
            assert forall|i: int| 0 <= i < u.drop_first().len() implies #[trigger] u.drop_first()[i]
                != 0 by {
                assert(u.drop_first()[i] == u[i + 1]);
            }
            assert forall|i: int| 0 <= i < v.drop_first().len() implies #[trigger] v.drop_first()[i]
                != 0 by {
                assert(v.drop_first()[i] == v[i + 1]);
            }
            lemma_closed_order(u.drop_first(), x, v.drop_first(), y);
        }
    }
}

/// The numbers of characters are above zero.
proof fn lemma_char_codes_positive(part: Seq<char>)
    ensures
        forall|i: int| 0 <= i < char_codes(part).len() ==> #[trigger] char_codes(part)[i] != 0,
{
    assert forall|i: int| 0 <= i < char_codes(part).len() implies #[trigger] char_codes(part)[i]
        != 0 by {
        lemma_char_range(part[i]);
    }
}

/// The order of keys is the order of components: comparing the keys of two
/// paths compares their components one by one.
pub proof fn lemma_key_order_is_parts_order(a: Seq<Seq<char>>, b: Seq<Seq<char>>)
    ensures
        code_order(parts_code(a), parts_code(b)) == parts_order(a, b),
    decreases a.len(),
{
    if a.len() == 0 || b.len() == 0 {
        if a.len() > 0 {
            lemma_parts_code_front(a);
            assert(parts_code(a).len() > 0);
        }
        if b.len() > 0 {
            lemma_parts_code_front(b);
            assert(parts_code(b).len() > 0);
        }
    } else {
        lemma_parts_code_front(a);
        lemma_parts_code_front(b);
        let ua = char_codes(a[0]);
        let ub = char_codes(b[0]);
        let x = parts_code(a.drop_first());
        let y = parts_code(b.drop_first());
        let left = parts_code(a);
        let right = parts_code(b);
        assert(left =~= seq![part_rank(a[0])] + (ua + seq![0u32] + x));
        assert(right =~= seq![part_rank(b[0])] + (ub + seq![0u32] + y));
        assert(left[0] == part_rank(a[0]));
        assert(right[0] == part_rank(b[0]));
        if part_rank(a[0]) == part_rank(b[0]) {
            assert(left.drop_first() =~= ua + seq![0u32] + x);
            assert(right.drop_first() =~= ub + seq![0u32] + y);
            lemma_char_codes_positive(a[0]);
            lemma_char_codes_positive(b[0]);
            lemma_closed_order(ua, x, ub, y);
            lemma_key_order_is_parts_order(a.drop_first(), b.drop_first());
        }
    }
}

/// A character's number is a Unicode scalar value.
proof fn lemma_char_range(c: char)
    ensures
        c as u32 <= 0x10FFFF,
{
}

/// Characters with the same code are the same character.
proof fn lemma_char_same(a: char, b: char)
    requires
        char_code(a) == char_code(b),
    ensures
        a == b,
{
}

/// In the code of a component zero stands at the end and nowhere else.
proof fn lemma_part_code_shape(part: Seq<char>)
    ensures
        part_code(part).len() == part.len() + 2,
        part_code(part).last() == 0,
        forall|i: int| 0 <= i <= part.len() ==> #[trigger] part_code(part)[i] != 0,
        forall|i: int|
            0 <= i < part.len() ==> #[trigger] part_code(part)[i + 1] == char_code(part[i]),
{
    assert forall|i: int| 0 <= i <= part.len() implies #[trigger] part_code(part)[i] != 0 by {
        if i > 0 {
            let c = part[i - 1];
            lemma_char_range(c);
            assert(part_code(part)[i] == char_code(c));
        }
    }
}

/// A code that is not empty ends with zero, and only components make a code.
proof fn lemma_parts_code_end(parts: Seq<Seq<char>>)
    ensures
        parts.len() == 0 <==> parts_code(parts).len() == 0,
        parts.len() > 0 ==> parts_code(parts).last() == 0,
{
    if parts.len() > 0 {
        lemma_part_code_shape(parts.last());
    }
}

/// The key tells the components: two paths have the same key exactly when
/// they have the same components.
pub proof fn lemma_key_tells_components(a: Seq<Seq<char>>, b: Seq<Seq<char>>)
    ensures
        parts_code(a) == parts_code(b) <==> a == b,
    decreases a.len(),
{
    if parts_code(a) == parts_code(b) {
        lemma_parts_code_end(a);
        lemma_parts_code_end(b);
        if a.len() == 0 || b.len() == 0 {
            assert(a =~= b);
        } else {
            let la = a.last();
            let lb = b.last();
            let ca = parts_code(a.drop_last());
            let cb = parts_code(b.drop_last());
            let pa = part_code(la);
            let pb = part_code(lb);
            let t = parts_code(a);
            let n = t.len() as int;
            assert(t == ca + pa);
            assert(t == cb + pb);
            lemma_part_code_shape(la);
            lemma_part_code_shape(lb);
            lemma_parts_code_end(a.drop_last());
            lemma_parts_code_end(b.drop_last());
            if la.len() < lb.len() {
                let q = n - la.len() - 3;
                assert(q >= 0);
                assert(t[q] == ca[q]);
                assert(t[q] == pb[q - cb.len()]);
            } else if lb.len() < la.len() {
                let q = n - lb.len() - 3;
                assert(q >= 0);
                assert(t[q] == cb[q]);
                assert(t[q] == pa[q - ca.len()]);
            }
            assert(la.len() == lb.len());
            assert(ca.len() == cb.len());
            assert(ca =~= t.take(ca.len() as int));
            assert(cb =~= t.take(cb.len() as int));
            assert forall|i: int| 0 <= i < la.len() implies la[i] == lb[i] by {
                assert(pa[i + 1] == t[ca.len() + i + 1]);
                assert(pb[i + 1] == t[cb.len() + i + 1]);
                assert(char_code(la[i]) == char_code(lb[i]));
                lemma_char_same(la[i], lb[i]);
            }
            assert(la =~= lb);
            lemma_key_tells_components(a.drop_last(), b.drop_last());
            assert(a =~= a.drop_last().push(la));
            assert(b =~= b.drop_last().push(lb));
        }
    }
}

/// The number that stands for `c` in a code.
fn code_of(c: char) -> (n: u32)
    ensures
        n == char_code(c),
{
    c as u32 + 1
}

/// Appends the code of `part` to `out`.
fn encode_part(part: &str, out: &mut Vec<u32>)
    ensures
        final(out)@ == old(out)@ + part_code(part@),
{
    proof {
        reveal_strlit(".");
        reveal_strlit("..");
        assert("."@ =~= seq!['.']);
        assert(".."@ =~= seq!['.', '.']);
    }
    let rank: u32 = if same_text(part, ".") {
        1
    } else if same_text(part, "..") {
        2
    } else {
        3
    };
    out.push(rank);
    let ghost head = out@;
    for c in it: part.chars()
        invariant
            it.seq() == part@,
            out@ == head + char_codes(part@.take(it.index() as int)),
    {
        out.push(code_of(c));
        proof {
            let n = it.index() as int;
            assert(char_codes(part@.take(n + 1)) =~= char_codes(part@.take(n)).push(char_code(c)));
        }
    }
    out.push(0);
    proof {
        assert(part@.take(part@.len() as int) =~= part@);
        assert(out@ =~= old(out)@ + part_code(part@));
    }
}

/// The key made of the given components.
pub fn encode(parts: &Vec<String>) -> (key: Vec<u32>)
    ensures
        key@ == parts_code(parts.deep_view()),
{
    let mut key: Vec<u32> = Vec::new();
    let mut i: usize = 0;
    while i < parts.len()
        invariant
            i <= parts.len(),
            key@ == parts_code(parts.deep_view().take(i as int)),
        decreases parts.len() - i,
    {
        encode_part(parts[i].as_str(), &mut key);
        proof {
            let all = parts.deep_view();
            assert(all.take(i + 1).drop_last() =~= all.take(i as int));
            assert(all.take(i + 1).last() == parts[i as int]@);
        }
        i += 1;
    }
    proof {
        assert(parts.deep_view().take(parts.len() as int) =~= parts.deep_view());
    }
    key
}

/// A relative path: its text as written, and its key.
pub struct RelPath {
    text: String,
    key: Vec<u32>,
}

impl View for RelPath {
    type V = Seq<char>;

    closed spec fn view(&self) -> Seq<char> {
        self.text@
    }
}

impl RelPath {
    /// The key that is stored is the key of the text.
    pub closed spec fn wf(&self) -> bool {
        self.key@ == path_key(self.text@)
    }

    /// The path written as `text`.
    pub fn new(text: &str) -> (path: Self)
        ensures
            path.wf(),
            path@ == text@,
    {
        let parts = split_path(text);
        RelPath { text: text.to_owned(), key: encode(&parts) }
    }

    /// The path written as `text`, which becomes its text.
    pub fn from_string(text: String) -> (path: Self)
        ensures
            path.wf(),
            path@ == text@,
    {
        let parts = split_path(text.as_str());
        RelPath { text, key: encode(&parts) }
    }

    /// The text of the path, as it was written.
    pub fn as_str(&self) -> (text: &str)
        ensures
            text@ == self@,
    {
        self.text.as_str()
    }

    /// How this path stands to `other`: how its components stand to those
    /// of `other`.
    pub fn order(&self, other: &RelPath) -> (r: Order)
        requires
            self.wf(),
            other.wf(),
        ensures
            r == path_order(self@, other@),
            r == parts_order(path_components(self@), path_components(other@)),
    {
        proof {
            lemma_key_order_is_parts_order(path_components(self@), path_components(other@));
        }
        compare_codes(&self.key, &other.key)
    }

    /// Whether this path and `other` are the same path: whether they have
    /// the same components.
    pub fn same(&self, other: &RelPath) -> (r: bool)
        requires
            self.wf(),
            other.wf(),
        ensures
            r == (path_key(self@) == path_key(other@)),
            r == (path_components(self@) == path_components(other@)),
    {
        proof {
            lemma_order_equal(path_key(self@), path_key(other@));
            lemma_key_tells_components(path_components(self@), path_components(other@));
        }
        compare_codes(&self.key, &other.key) == Order::Equal
    }
}

impl Clone for RelPath {
    fn clone(&self) -> (copy: Self)
        ensures
            copy@ == self@,
            copy.wf() == self.wf(),
    {
        RelPath { text: self.text.clone(), key: self.key.clone() }
    }
}

} // verus!
