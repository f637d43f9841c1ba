//! The order of path components and of component lists.

use vstd::prelude::*;

verus! {

/// How two values compare.
#[derive(Debug, Clone, Copy, PartialEq, Eq, Structural)]
pub enum Comparison {
    Less,
    Equal,
    Greater,
}

/// `a` and `b` agree before index `k`, where `a` ends or has the smaller byte.
pub open spec fn bytes_less_at(a: Seq<u8>, b: Seq<u8>, k: int) -> bool {
    &&& 0 <= k <= a.len()
    &&& k < b.len()
    &&& a.take(k) == b.take(k)
    &&& k < a.len() ==> a[k] < b[k]
}

/// The lexicographic order of byte strings.
pub open spec fn bytes_less(a: Seq<u8>, b: Seq<u8>) -> bool {
    exists|k: int| #[trigger] bytes_less_at(a, b, k)
}

/// The place of a component's kind in the order: the root, the current
/// directory, the parent directory, then every name.
pub open spec fn rank(part: Seq<u8>) -> int {
    if part == seq![0x2fu8] {
        0
    } else if part == seq![0x2eu8] {
        1
    } else if part == seq![0x2eu8, 0x2eu8] {
        2
    } else {
        3
    }
}

/// The order of components: by kind, and names by their bytes.
pub open spec fn part_less(a: Seq<u8>, b: Seq<u8>) -> bool {
    ||| rank(a) < rank(b)
    ||| rank(a) == 3 && rank(b) == 3 && bytes_less(a, b)
}

/// `a` and `b` agree before index `k`, where `a` ends or has the smaller
/// component.
pub open spec fn parts_less_at(a: Seq<Seq<u8>>, b: Seq<Seq<u8>>, k: int) -> bool {
    &&& 0 <= k <= a.len()
    &&& k < b.len()
    &&& a.take(k) == b.take(k)
    &&& k < a.len() ==> part_less(a[k], b[k])
}

/// The lexicographic order of component lists.
pub open spec fn parts_less(a: Seq<Seq<u8>>, b: Seq<Seq<u8>>) -> bool {
    exists|k: int| #[trigger] parts_less_at(a, b, k)
}

/// The first elements of two lists that share a longer start are the same.
proof fn lemma_take_agree<T>(a: Seq<T>, b: Seq<T>, k: int, m: int)
    requires
        0 <= m <= k <= a.len(),
        k <= b.len(),
        a.take(k) == b.take(k),
    ensures
        a.take(m) == b.take(m),
        m < k ==> a[m] == b[m],
{
    assert(a.take(k).take(m) == a.take(m));
    assert(b.take(k).take(m) == b.take(m));
    if m < k {
        assert(a.take(k)[m] == a[m]);
        assert(b.take(k)[m] == b[m]);
    }
}

/// No byte string is less than itself.
pub proof fn bytes_less_irreflexive(a: Seq<u8>)
    ensures
        !bytes_less(a, a),
{
}

/// The order of byte strings is transitive.
pub proof fn bytes_less_transitive(a: Seq<u8>, b: Seq<u8>, c: Seq<u8>)
    requires
        bytes_less(a, b),
        bytes_less(b, c),
    ensures
        bytes_less(a, c),
{
    let i = choose|i: int| #[trigger] bytes_less_at(a, b, i);
    let j = choose|j: int| #[trigger] bytes_less_at(b, c, j);
    if i <= j {
        lemma_take_agree(b, c, j, i);
        assert(bytes_less_at(a, c, i));
    } else {
        lemma_take_agree(a, b, i, j);
        assert(bytes_less_at(a, c, j));
    }
}

proof fn lemma_bytes_total_from(a: Seq<u8>, b: Seq<u8>, k: int)
    requires
        0 <= k <= a.len(),
        k <= b.len(),
        a.take(k) == b.take(k),
    ensures
        bytes_less(a, b) || a == b || bytes_less(b, a),
    decreases a.len() - k,
{
    if k == a.len() && k == b.len() {
        assert(a == a.take(k));
        assert(b == b.take(k));
    } else if k == a.len() {
        assert(bytes_less_at(a, b, k));
    } else if k == b.len() {
        assert(bytes_less_at(b, a, k));
    } else if a[k] < b[k] {
        assert(bytes_less_at(a, b, k));
    } else if b[k] < a[k] {
        assert(bytes_less_at(b, a, k));
    } else {
        assert(a.take(k + 1) == a.take(k).push(a[k]));
        assert(b.take(k + 1) == b.take(k).push(b[k]));
        lemma_bytes_total_from(a, b, k + 1);
    }
}

/// Of two different byte strings one is less than the other.
pub proof fn bytes_less_total(a: Seq<u8>, b: Seq<u8>)
    ensures
        bytes_less(a, b) || a == b || bytes_less(b, a),
{
    assert(a.take(0) == b.take(0));
    lemma_bytes_total_from(a, b, 0);
}

/// No component is less than itself.
pub proof fn part_less_irreflexive(a: Seq<u8>)
    ensures
        !part_less(a, a),
{
    bytes_less_irreflexive(a);
}

/// The order of components is transitive.
pub proof fn part_less_transitive(a: Seq<u8>, b: Seq<u8>, c: Seq<u8>)
    requires
        part_less(a, b),
        part_less(b, c),
    ensures
        part_less(a, c),
{
    if rank(a) == 3 && rank(b) == 3 && rank(c) == 3 {
        bytes_less_transitive(a, b, c);
    }
}

/// Of two different components one is less than the other.
pub proof fn part_less_total(a: Seq<u8>, b: Seq<u8>)
    ensures
        part_less(a, b) || a == b || part_less(b, a),
{
    bytes_less_total(a, b);
}

/// No component list is less than itself.
pub proof fn parts_less_irreflexive(a: Seq<Seq<u8>>)
    ensures
        !parts_less(a, a),
{
    if parts_less(a, a) {
        let k = choose|k: int| #[trigger] parts_less_at(a, a, k);
        part_less_irreflexive(a[k]);
    }
}

/// The order of component lists is transitive.
pub proof fn parts_less_transitive(a: Seq<Seq<u8>>, b: Seq<Seq<u8>>, c: Seq<Seq<u8>>)
    requires
        parts_less(a, b),
        parts_less(b, c),
    ensures
        parts_less(a, c),
{
    let i = choose|i: int| #[trigger] parts_less_at(a, b, i);
    let j = choose|j: int| #[trigger] parts_less_at(b, c, j);
    if i < j {
        lemma_take_agree(b, c, j, i);
        assert(parts_less_at(a, c, i));
    } else if j < i {
        lemma_take_agree(a, b, i, j);
        assert(parts_less_at(a, c, j));
    } else {
        if i < a.len() {
            part_less_transitive(a[i], b[i], c[i]);
        }
        assert(parts_less_at(a, c, i));
    }
}

proof fn lemma_parts_total_from(a: Seq<Seq<u8>>, b: Seq<Seq<u8>>, k: int)
    requires
        0 <= k <= a.len(),
        k <= b.len(),
        a.take(k) == b.take(k),
    ensures
        parts_less(a, b) || a == b || parts_less(b, a),
    decreases a.len() - k,
{
    if k == a.len() && k == b.len() {
        assert(a == a.take(k));
        assert(b == b.take(k));
    } else if k == a.len() {
        assert(parts_less_at(a, b, k));
    } else if k == b.len() {
        assert(parts_less_at(b, a, k));
    } else {
        part_less_total(a[k], b[k]);
        if part_less(a[k], b[k]) {
            assert(parts_less_at(a, b, k));
        } else if part_less(b[k], a[k]) {
            assert(parts_less_at(b, a, k));
        } else {
            assert(a.take(k + 1) == a.take(k).push(a[k]));
            assert(b.take(k + 1) == b.take(k).push(b[k]));
            lemma_parts_total_from(a, b, k + 1);
        }
    }
}

/// Of two different component lists one is less than the other.
pub proof fn parts_less_total(a: Seq<Seq<u8>>, b: Seq<Seq<u8>>)
    ensures
        parts_less(a, b) || a == b || parts_less(b, a),
{
    assert(a.take(0) == b.take(0));
    lemma_parts_total_from(a, b, 0);
}

/// Of two component lists at most one is less than the other.
pub proof fn parts_less_asymmetric(a: Seq<Seq<u8>>, b: Seq<Seq<u8>>)
    requires
        parts_less(a, b),
    ensures
        !parts_less(b, a),
        a != b,
{
    parts_less_irreflexive(a);
    if parts_less(b, a) {
        parts_less_transitive(a, b, a);
    }
}

/// Compares two byte strings.
pub fn compare_bytes(a: &[u8], b: &[u8]) -> (res: Comparison)
    ensures
        match res {
            Comparison::Less => bytes_less(a@, b@),
            Comparison::Equal => a@ == b@,
            Comparison::Greater => bytes_less(b@, a@),
        },
{
    let mut i: usize = 0;
    while i < a.len() && i < b.len()
        invariant
            i <= a.len(),
            i <= b.len(),
            a@.take(i as int) == b@.take(i as int),
        decreases a.len() - i,
    {
        if a[i] < b[i] {
            assert(bytes_less_at(a@, b@, i as int));
            return Comparison::Less;
        }
        if b[i] < a[i] {
            assert(bytes_less_at(b@, a@, i as int));
            return Comparison::Greater;
        }
        assert(a@.take(i + 1) == a@.take(i as int).push(a@[i as int]));
        assert(b@.take(i + 1) == b@.take(i as int).push(b@[i as int]));
        i = i + 1;
    }
    if i < b.len() {
        assert(bytes_less_at(a@, b@, i as int));
        Comparison::Less
    } else if i < a.len() {
        assert(bytes_less_at(b@, a@, i as int));
        Comparison::Greater
    } else {
        assert(a@ == a@.take(i as int));
        assert(b@ == b@.take(i as int));
        Comparison::Equal
    }
}

/// Whether two byte strings are the same.
pub fn same_bytes(a: &[u8], b: &[u8]) -> (res: bool)
    ensures
        res == (a@ == b@),
{
    if a.len() != b.len() {
        return false;
    }
    let mut i: usize = 0;
    while i < a.len()
        invariant
            i <= a.len(),
            a.len() == b.len(),
            forall|j: int| 0 <= j < i ==> a@[j] == b@[j],
        decreases a.len() - i,
    {
        if a[i] != b[i] {
            return false;
        }
        i = i + 1;
    }
    assert(a@ == b@);
    true
}

/// The place of a component's kind in the order.
fn rank_of(part: &[u8]) -> (res: u8)
    ensures
        res == rank(part@),
{
    proof {
        let p = part@;
        assert(p.len() == 1 && p[0] == 0x2f ==> p == seq![0x2fu8]);
        assert(p.len() == 1 && p[0] == 0x2e ==> p == seq![0x2eu8]);
        assert(p.len() == 2 && p[0] == 0x2e && p[1] == 0x2e ==> p == seq![0x2eu8, 0x2eu8]);
    }
    if part.len() == 1 && part[0] == 0x2f {
        0
    } else if part.len() == 1 && part[0] == 0x2e {
        1
    } else if part.len() == 2 && part[0] == 0x2e && part[1] == 0x2e {
        2
    } else {
        3
    }
}

/// Compares two components.
pub fn compare_part(a: &[u8], b: &[u8]) -> (res: Comparison)
    ensures
        match res {
            Comparison::Less => part_less(a@, b@),
            Comparison::Equal => a@ == b@,
            Comparison::Greater => part_less(b@, a@),
        },
{
    let ra: u8 = rank_of(a);
    let rb: u8 = rank_of(b);
    if ra < rb {
        Comparison::Less
    } else if rb < ra {
        Comparison::Greater
    } else if ra < 3 {
        Comparison::Equal
    } else {
        compare_bytes(a, b)
    }
}

/// The byte strings that a list of vectors holds.
pub open spec fn byte_views(list: Seq<Vec<u8>>) -> Seq<Seq<u8>> {
    list.map_values(|item: Vec<u8>| item@)
}

/// Compares two component lists.
pub fn compare_parts(a: &Vec<Vec<u8>>, b: &Vec<Vec<u8>>) -> (res: Comparison)
    ensures
        match res {
            Comparison::Less => parts_less(byte_views(a@), byte_views(b@)),
            Comparison::Equal => byte_views(a@) == byte_views(b@),
            Comparison::Greater => parts_less(byte_views(b@), byte_views(a@)),
        },
{
    let ghost av = byte_views(a@);
    let ghost bv = byte_views(b@);
    let mut i: usize = 0;
    while i < a.len() && i < b.len()
        invariant
            i <= a.len(),
            i <= b.len(),
            av == byte_views(a@),
            bv == byte_views(b@),
            av.take(i as int) == bv.take(i as int),
        decreases a.len() - i,
    {
        match compare_part(a[i].as_slice(), b[i].as_slice()) {
            Comparison::Less => {
                assert(parts_less_at(av, bv, i as int));
                return Comparison::Less;
            },
            Comparison::Greater => {
                assert(parts_less_at(bv, av, i as int));
                return Comparison::Greater;
            },
            Comparison::Equal => {
                assert(av.take(i + 1) == av.take(i as int).push(av[i as int]));
                assert(bv.take(i + 1) == bv.take(i as int).push(bv[i as int]));
            },
        }
        i = i + 1;
    }
    if i < b.len() {
        assert(parts_less_at(av, bv, i as int));
        Comparison::Less
    } else if i < a.len() {
        assert(parts_less_at(bv, av, i as int));
        Comparison::Greater
    } else {
        assert(av == av.take(i as int));
        assert(bv == bv.take(i as int));
        Comparison::Equal
    }
}

/// Whether one component list begins with another.
pub fn begins_with(list: &Vec<Vec<u8>>, start: &Vec<Vec<u8>>) -> (res: bool)
    ensures
        res == byte_views(start@).is_prefix_of(byte_views(list@)),
{
    let ghost lv = byte_views(list@);
    let ghost sv = byte_views(start@);
    if start.len() > list.len() {
        return false;
    }
    let mut i: usize = 0;
    while i < start.len()
        invariant
            i <= start.len(),
            start.len() <= list.len(),
            lv == byte_views(list@),
            sv == byte_views(start@),
            forall|j: int| 0 <= j < i ==> sv[j] == lv[j],
        decreases start.len() - i,
    {
        if !same_bytes(start[i].as_slice(), list[i].as_slice()) {
            assert(sv[i as int] != lv[i as int]);
            assert(lv.subrange(0, sv.len() as int)[i as int] == lv[i as int]);
            return false;
        }
        i = i + 1;
    }
    assert(sv == lv.subrange(0, sv.len() as int));
    true
}

/// A copy of a byte string.
pub fn copy_bytes(bytes: &[u8]) -> (res: Vec<u8>)
    ensures
        res@ == bytes@,
{
    let mut res: Vec<u8> = Vec::new();
    let mut i: usize = 0;
    while i < bytes.len()
        invariant
            i <= bytes.len(),
            res@ == bytes@.take(i as int),
        decreases bytes.len() - i,
    {
        res.push(bytes[i]);
        assert(bytes@.take(i + 1) == bytes@.take(i as int).push(bytes@[i as int]));
        i = i + 1;
    }
    assert(bytes@.take(i as int) == bytes@);
    res
}

} // verus!
