use crate::error::ObjectError;
use crate::object::{object_hash, serialize, Object, ObjectType, NUL, SPACE};
use crate::outside::is_utf8;
use crate::scan::{
    append_bytes, bytes_equal, copy_range, find_byte, first_index, lemma_first_index_at,
    lemma_first_index_bounds,
};
use vstd::multiset::Multiset;
use vstd::prelude::*;
use vstd::string::StringSliceAdditionalSpecFns;
use vstd::utf8::{encode_utf8, valid_utf8};

verus! {

/// A tree entry as plain values: mode, name and target hash bytes.
pub type EntryView = (Seq<u8>, Seq<u8>, Seq<u8>);

/// The bytes of one entry: `<mode> <name>`, a NUL byte, then the raw hash.
pub open spec fn entry_bytes(e: EntryView) -> Seq<u8> {
    e.0 + seq![SPACE] + e.1 + seq![NUL] + e.2
}

/// The body of a tree: the entries' bytes, in sequence order, with no terminator.
pub open spec fn encode_entries(s: Seq<EntryView>) -> Seq<u8>
    decreases s.len(),
{
    if s.len() == 0 {
        Seq::empty()
    } else {
        encode_entries(s.drop_last()) + entry_bytes(s.last())
    }
}

/// Byte-wise lexicographic order on names (a prefix comes first).
pub open spec fn name_le(a: Seq<u8>, b: Seq<u8>) -> bool
    decreases a.len(),
{
    if a.len() == 0 {
        true
    } else if b.len() == 0 {
        false
    } else if a[0] != b[0] {
        a[0] < b[0]
    } else {
        name_le(a.drop_first(), b.drop_first())
    }
}

/// Places `x` after every leading entry whose name is not above its own.
pub open spec fn sorted_insert(s: Seq<EntryView>, x: EntryView) -> Seq<EntryView>
    decreases s.len(),
{
    if s.len() == 0 {
        seq![x]
    } else if name_le(s[0].1, x.1) {
        seq![s[0]] + sorted_insert(s.drop_first(), x)
    } else {
        seq![x] + s
    }
}

/// The entries of `s` in ascending name order; among equal names, in the order given.
pub open spec fn sort_by_name(s: Seq<EntryView>) -> Seq<EntryView>
    decreases s.len(),
{
    if s.len() == 0 {
        s
    } else {
        sorted_insert(sort_by_name(s.drop_last()), s.last())
    }
}

/// Each entry's name is at most the next one's.
pub open spec fn sorted_by_name(s: Seq<EntryView>) -> bool {
    forall|i: int| 0 <= i < s.len() - 1 ==> name_le(#[trigger] s[i].1, s[i + 1].1)
}

/// Decodes the tree body `b` from position `pos` on; `None` where an entry has
/// no NUL, no space before its NUL, fewer than 20 hash bytes after it, or a
/// name that is not UTF-8.
pub open spec fn parse_entries(b: Seq<u8>, pos: int) -> Option<Seq<EntryView>>
    decreases b.len() - pos,
{
    if pos < 0 || pos >= b.len() {
        Some(Seq::empty())
    } else {
        let z = first_index(b, NUL, pos);
        let sp = first_index(b, SPACE, pos);
        if z < pos || sp < pos || z >= b.len() || sp >= z || z + 21 > b.len() || !valid_utf8(b.subrange(sp + 1, z)) {
            None
        } else {
            match parse_entries(b, z + 21) {
                Some(rest) => Some(
                    seq![(b.subrange(pos, sp), b.subrange(sp + 1, z), b.subrange(z + 1, z + 21))]
                        + rest,
                ),
                None => None,
            }
        }
    }
}

pub open spec fn prepend(p: Seq<EntryView>, o: Option<Seq<EntryView>>) -> Option<Seq<EntryView>> {
    match o {
        Some(rest) => Some(p + rest),
        None => None,
    }
}

pub proof fn lemma_name_le_total(a: Seq<u8>, b: Seq<u8>)
    ensures
        name_le(a, b) || name_le(b, a),
    decreases a.len(),
{
    if a.len() > 0 && b.len() > 0 && a[0] == b[0] {
        lemma_name_le_total(a.drop_first(), b.drop_first());
    }
}

/// `sorted_insert` puts `x` at the first position whose name is above its own.
pub proof fn lemma_sorted_insert_at(s: Seq<EntryView>, x: EntryView, p: int)
    requires
        0 <= p <= s.len(),
        forall|j: int| 0 <= j < p ==> name_le(#[trigger] s[j].1, x.1),
        p < s.len() ==> !name_le(s[p].1, x.1),
    ensures
        sorted_insert(s, x) == s.insert(p, x),
    decreases p,
{
    if p == 0 {
        if s.len() == 0 {
            assert(s.insert(0, x) =~= seq![x]);
        } else {
            assert(s.insert(0, x) =~= seq![x] + s);
        }
    } else {
        let t = s.drop_first();
        assert forall|j: int| 0 <= j < p - 1 implies name_le(#[trigger] t[j].1, x.1) by {
            assert(t[j] == s[j + 1]);
        }
        lemma_sorted_insert_at(t, x, p - 1);
        assert(s.insert(p, x) =~= seq![s[0]] + t.insert(p - 1, x));
    }
}

/// Inserting keeps a sorted sequence sorted and adds exactly one entry.
pub proof fn lemma_sorted_insert_sorted(s: Seq<EntryView>, x: EntryView)
    requires
        sorted_by_name(s),
    ensures
        sorted_by_name(sorted_insert(s, x)),
        sorted_insert(s, x).to_multiset() == s.to_multiset().insert(x),
        sorted_insert(s, x).len() == s.len() + 1,
    decreases s.len(),
{
    broadcast use vstd::seq_lib::group_to_multiset_ensures;

    if s.len() == 0 {
        assert(seq![x] =~= Seq::<EntryView>::empty().push(x));
    } else if name_le(s[0].1, x.1) {
        let t = s.drop_first();
        assert(sorted_by_name(t)) by {
            assert forall|i: int| 0 <= i < t.len() - 1 implies name_le(#[trigger] t[i].1, t[i + 1].1) by {
                assert(t[i] == s[i + 1] && t[i + 1] == s[i + 2]);
            }
        }
        lemma_sorted_insert_sorted(t, x);
        let r = sorted_insert(t, x);
        let whole = seq![s[0]] + r;
        assert(r[0] == x || (t.len() > 0 && r[0] == t[0])) by {
            if t.len() > 0 && name_le(t[0].1, x.1) {
            } else if t.len() > 0 {
            }
        }
        assert forall|i: int| 0 <= i < whole.len() - 1 implies name_le(
            #[trigger] whole[i].1,
            whole[i + 1].1,
        ) by {
            if i > 0 {
                assert(whole[i] == r[i - 1] && whole[i + 1] == r[i]);
            } else if t.len() > 0 && r[0] == t[0] {
                assert(t[0] == s[1]);
            }
        }
        assert(s =~= seq![s[0]] + t);
        assert(whole.to_multiset() =~= s.to_multiset().insert(x)) by {
            vstd::seq_lib::lemma_multiset_commutative(seq![s[0]], r);
            vstd::seq_lib::lemma_multiset_commutative(seq![s[0]], t);
        }
    } else {
        lemma_name_le_total(s[0].1, x.1);
        let whole = seq![x] + s;
        assert forall|i: int| 0 <= i < whole.len() - 1 implies name_le(
            #[trigger] whole[i].1,
            whole[i + 1].1,
        ) by {
            if i > 0 {
                assert(whole[i] == s[i - 1] && whole[i + 1] == s[i]);
            }
        }
        assert(whole.to_multiset() =~= s.to_multiset().insert(x)) by {
            vstd::seq_lib::lemma_multiset_commutative(seq![x], s);
        }
    }
}

/// Whatever the order in which entries arrive, the sorted sequence is ordered
/// by name and holds exactly the same entries.
pub proof fn lemma_sort_by_name(s: Seq<EntryView>)
    ensures
        sorted_by_name(sort_by_name(s)),
        sort_by_name(s).to_multiset() == s.to_multiset(),
        sort_by_name(s).len() == s.len(),
    decreases s.len(),
{
    broadcast use vstd::seq_lib::group_to_multiset_ensures;

    if s.len() > 0 {
        lemma_sort_by_name(s.drop_last());
        lemma_sorted_insert_sorted(sort_by_name(s.drop_last()), s.last());
        assert(s.drop_last().push(s.last()) =~= s);
    }
}

pub proof fn lemma_name_le_antisymmetric(a: Seq<u8>, b: Seq<u8>)
    requires
        name_le(a, b),
        name_le(b, a),
    ensures
        a == b,
    decreases a.len(),
{
    if a.len() > 0 && b.len() > 0 {
        lemma_name_le_antisymmetric(a.drop_first(), b.drop_first());
        assert(a =~= seq![a[0]] + a.drop_first());
        assert(b =~= seq![b[0]] + b.drop_first());
    } else {
        assert(a =~= b);
    }
}

pub proof fn lemma_name_le_transitive(a: Seq<u8>, b: Seq<u8>, c: Seq<u8>)
    requires
        name_le(a, b),
        name_le(b, c),
    ensures
        name_le(a, c),
    decreases a.len(),
{
    if a.len() > 0 && b.len() > 0 && c.len() > 0 && a[0] == b[0] && b[0] == c[0] {
        lemma_name_le_transitive(a.drop_first(), b.drop_first(), c.drop_first());
    }
}

/// In a sorted sequence every name is at most every later one.
pub proof fn lemma_sorted_pairwise(s: Seq<EntryView>, i: int, j: int)
    requires
        sorted_by_name(s),
        0 <= i <= j < s.len(),
    ensures
        name_le(s[i].1, s[j].1),
    decreases j - i,
{
    if i == j {
        lemma_name_le_total(s[i].1, s[i].1);
    } else {
        lemma_sorted_pairwise(s, i, j - 1);
        assert(name_le(s[j - 1].1, s[j].1));
        lemma_name_le_transitive(s[i].1, s[j - 1].1, s[j].1);
    }
}

/// Entries of `m` that share a name are the same entry.
pub open spec fn names_determine_entries(m: Multiset<EntryView>) -> bool {
    forall|x: EntryView, y: EntryView|
        m.contains(x) && m.contains(y) && x.1 == y.1 ==> x == y
}

proof fn lemma_drop_first_sorted(s: Seq<EntryView>)
    requires
        sorted_by_name(s),
        s.len() > 0,
    ensures
        sorted_by_name(s.drop_first()),
        s.to_multiset() == s.drop_first().to_multiset().insert(s[0]),
{
    broadcast use vstd::seq_lib::group_to_multiset_ensures;

    let t = s.drop_first();
    assert forall|i: int| 0 <= i < t.len() - 1 implies name_le(#[trigger] t[i].1, t[i + 1].1) by {
        assert(t[i] == s[i + 1] && t[i + 1] == s[i + 2]);
    }
    assert(s =~= seq![s[0]] + t);
    vstd::seq_lib::lemma_multiset_commutative(seq![s[0]], t);
    assert(seq![s[0]] =~= Seq::<EntryView>::empty().push(s[0]));
    assert(s.to_multiset() =~= t.to_multiset().insert(s[0]));
}

proof fn lemma_first_is_least(s1: Seq<EntryView>, s2: Seq<EntryView>)
    requires
        sorted_by_name(s1),
        sorted_by_name(s2),
        s1.to_multiset() == s2.to_multiset(),
        names_determine_entries(s1.to_multiset()),
        s1.len() > 0,
    ensures
        s2.len() > 0,
        s1[0] == s2[0],
{
    broadcast use vstd::seq_lib::group_to_multiset_ensures;

    let m = s1.to_multiset();
    assert(s1.to_multiset().len() == s1.len());
    assert(s2.to_multiset().len() == s2.len());
    assert(s1.contains(s1[0]));
    assert(m.count(s1[0]) > 0);
    assert(s2.to_multiset().count(s1[0]) > 0);
    let k = choose|k: int| 0 <= k < s2.len() && s2[k] == s1[0];
    lemma_sorted_pairwise(s2, 0, k);
    assert(s2.contains(s2[0]));
    assert(s2.to_multiset().count(s2[0]) > 0);
    assert(s1.contains(s2[0]));
    let q = choose|q: int| 0 <= q < s1.len() && s1[q] == s2[0];
    lemma_sorted_pairwise(s1, 0, q);
    lemma_name_le_antisymmetric(s1[0].1, s2[0].1);
    assert(m.contains(s1[0]) && m.contains(s2[0]));
}

/// Two sorted sequences with the same entries, where a name determines its
/// entry, are equal.
pub proof fn lemma_sorted_unique(s1: Seq<EntryView>, s2: Seq<EntryView>)
    requires
        sorted_by_name(s1),
        sorted_by_name(s2),
        s1.to_multiset() == s2.to_multiset(),
        names_determine_entries(s1.to_multiset()),
    ensures
        s1 == s2,
    decreases s1.len(),
{
    if s1.len() == 0 {
        s1.to_multiset_ensures();
        s2.to_multiset_ensures();
        assert(s2 =~= s1);
    } else {
        lemma_first_is_least(s1, s2);
        let m = s1.to_multiset();
        let t1 = s1.drop_first();
        let t2 = s2.drop_first();
        lemma_drop_first_sorted(s1);
        lemma_drop_first_sorted(s2);
        assert(t1.to_multiset() =~= t2.to_multiset()) by {
            assert forall|y: EntryView| t1.to_multiset().count(y) == t2.to_multiset().count(y) by {
                assert(m.count(y) == t1.to_multiset().insert(s1[0]).count(y));
                assert(m.count(y) == t2.to_multiset().insert(s1[0]).count(y));
            }
        }
        assert(names_determine_entries(t1.to_multiset())) by {
            assert forall|x: EntryView, y: EntryView|
                t1.to_multiset().contains(x) && t1.to_multiset().contains(y) && x.1 == y.1 implies x
                == y by {
                assert(m.count(x) == t1.to_multiset().insert(s1[0]).count(x));
                assert(m.count(y) == t1.to_multiset().insert(s1[0]).count(y));
                assert(m.contains(x) && m.contains(y));
            }
        }
        lemma_sorted_unique(t1, t2);
        assert(s1 =~= seq![s1[0]] + t1);
        assert(s2 =~= seq![s2[0]] + t2);
    }
}

/// Entries pushed in any order give the same tree, hence the same body and
/// hash, provided entries that share a name are identical.
pub proof fn lemma_insertion_order_irrelevant(s1: Seq<EntryView>, s2: Seq<EntryView>)
    requires
        s1.to_multiset() == s2.to_multiset(),
        names_determine_entries(s1.to_multiset()),
    ensures
        sort_by_name(s1) == sort_by_name(s2),
        encode_entries(sort_by_name(s1)) == encode_entries(sort_by_name(s2)),
        object_hash(ObjectType::Tree, encode_entries(sort_by_name(s1))) == object_hash(
            ObjectType::Tree,
            encode_entries(sort_by_name(s2)),
        ),
{
    lemma_sort_by_name(s1);
    lemma_sort_by_name(s2);
    lemma_sorted_unique(sort_by_name(s1), sort_by_name(s2));
}

/// An entry that its bytes can carry: a mode without space or NUL, a UTF-8
/// name without NUL and a 20-byte hash.
pub open spec fn entry_well_formed(e: EntryView) -> bool {
    &&& forall|i: int| 0 <= i < e.0.len() ==> #[trigger] e.0[i] != SPACE && e.0[i] != NUL
    &&& forall|i: int| 0 <= i < e.1.len() ==> #[trigger] e.1[i] != NUL
    &&& valid_utf8(e.1)
    &&& e.2.len() == 20
}

proof fn lemma_encode_first(s: Seq<EntryView>)
    requires
        s.len() > 0,
    ensures
        encode_entries(s) == entry_bytes(s[0]) + encode_entries(s.drop_first()),
    decreases s.len(),
{
    if s.len() == 1 {
        assert(s.drop_first() =~= Seq::<EntryView>::empty());
        assert(s.drop_last() =~= Seq::<EntryView>::empty());
        assert(encode_entries(s) =~= entry_bytes(s[0]) + encode_entries(s.drop_first()));
    } else {
        lemma_encode_first(s.drop_last());
        assert(s.drop_last().drop_first() =~= s.drop_first().drop_last());
        assert(s.drop_last()[0] == s[0]);
        assert(s.drop_first().last() == s.last());
        assert(encode_entries(s) =~= entry_bytes(s[0]) + encode_entries(s.drop_first()));
    }
}

proof fn lemma_first_index_shift(p: Seq<u8>, r: Seq<u8>, b: u8, i: int)
    requires
        0 <= i <= r.len(),
    ensures
        first_index(p + r, b, p.len() + i) == p.len() + first_index(r, b, i),
    decreases r.len() - i,
{
    if i < r.len() {
        assert((p + r)[p.len() + i] == r[i]);
        lemma_first_index_shift(p, r, b, i + 1);
    }
}

proof fn lemma_parse_shift(p: Seq<u8>, r: Seq<u8>, pos: int)
    requires
        0 <= pos <= r.len(),
    ensures
        parse_entries(p + r, p.len() + pos) == parse_entries(r, pos),
    decreases r.len() - pos,
{
    let b = p + r;
    let q = p.len() + pos;
    if pos < r.len() {
        lemma_first_index_shift(p, r, NUL, pos);
        lemma_first_index_shift(p, r, SPACE, pos);
        lemma_first_index_bounds(r, NUL, pos);
        lemma_first_index_bounds(r, SPACE, pos);
        let z = first_index(r, NUL, pos);
        let sp = first_index(r, SPACE, pos);
        if sp < z && z + 21 <= r.len() {
            lemma_parse_shift(p, r, z + 21);
            assert(b.subrange(p.len() + sp + 1, p.len() + z) =~= r.subrange(sp + 1, z));
            assert(b.subrange(q, p.len() + sp) =~= r.subrange(pos, sp));
            assert(b.subrange(p.len() + z + 1, p.len() + z + 21) =~= r.subrange(z + 1, z + 21));
        }
    }
}

/// Decoding a body that starts with the bytes of well-formed entries yields
/// those entries, then whatever the remaining bytes decode to.
pub proof fn lemma_parse_prefix(s: Seq<EntryView>, t: Seq<u8>)
    requires
        forall|i: int| 0 <= i < s.len() ==> entry_well_formed(#[trigger] s[i]),
    ensures
        parse_entries(encode_entries(s) + t, 0) == prepend(s, parse_entries(t, 0)),
    decreases s.len(),
{
    if s.len() == 0 {
        assert(encode_entries(s) + t =~= t);
        match parse_entries(t, 0) {
            Some(r) => {
                assert(s + r =~= r);
            },
            None => {},
        }
    } else {
        let e = s[0];
        let tt = s.drop_first();
        assert forall|i: int| 0 <= i < tt.len() implies entry_well_formed(#[trigger] tt[i]) by {
            assert(tt[i] == s[i + 1]);
        }
        lemma_parse_prefix(tt, t);
        lemma_encode_first(s);
        assert(entry_well_formed(e));
        let head = entry_bytes(e);
        let rest = encode_entries(tt) + t;
        let b = head + rest;
        assert(encode_entries(s) + t =~= b);
        let m = e.0.len() as int;
        let z = m + 1 + e.1.len();
        assert(b[m] == SPACE);
        assert forall|j: int| 0 <= j < m implies b[j] != SPACE by {
            assert(b[j] == e.0[j]);
        }
        lemma_first_index_at(b, SPACE, 0, m);
        assert(b[z] == NUL);
        assert forall|j: int| 0 <= j < z implies b[j] != NUL by {
            if j < m {
                assert(b[j] == e.0[j]);
            } else if j > m {
                assert(b[j] == e.1[j - m - 1]);
            }
        }
        lemma_first_index_at(b, NUL, 0, z);
        assert(head.len() == z + 21);
        assert(b.subrange(0, m) =~= e.0);
        assert(b.subrange(m + 1, z) =~= e.1);
        assert(b.subrange(z + 1, z + 21) =~= e.2);
        lemma_parse_shift(head, rest, 0);
        match parse_entries(t, 0) {
            Some(r) => {
                assert(seq![e] + (tt + r) =~= s + r);
            },
            None => {},
        }
    }
}

/// Decoding the body of well-formed entries gives back those entries.
pub proof fn lemma_tree_round_trip(s: Seq<EntryView>)
    requires
        forall|i: int| 0 <= i < s.len() ==> entry_well_formed(#[trigger] s[i]),
    ensures
        parse_entries(encode_entries(s), 0) == Some(s),
{
    lemma_parse_prefix(s, Seq::empty());
    assert(encode_entries(s) + Seq::<u8>::empty() =~= encode_entries(s));
    assert(s + Seq::<EntryView>::empty() =~= s);
}

/// A body of complete entries followed by an entry whose hash has fewer than
/// 20 bytes does not decode: the short entry is never dropped or padded.
pub proof fn lemma_truncated_entry_fails(
    s: Seq<EntryView>,
    mode: Seq<u8>,
    name: Seq<u8>,
    short_hash: Seq<u8>,
)
    requires
        forall|i: int| 0 <= i < s.len() ==> entry_well_formed(#[trigger] s[i]),
        forall|i: int| 0 <= i < mode.len() ==> #[trigger] mode[i] != NUL,
        forall|i: int| 0 <= i < name.len() ==> #[trigger] name[i] != NUL,
        short_hash.len() < 20,
    ensures
        parse_entries(
            encode_entries(s) + (mode + seq![SPACE] + name + seq![NUL] + short_hash),
            0,
        ) is None,
{
    let t = mode + seq![SPACE] + name + seq![NUL] + short_hash;
    lemma_parse_prefix(s, t);
    let z = mode.len() + 1 + name.len();
    assert(t[z as int] == NUL);
    assert forall|j: int| 0 <= j < z implies t[j] != NUL by {
        if j < mode.len() {
            assert(t[j] == mode[j]);
        } else if j > mode.len() {
            assert(t[j] == name[j - mode.len() - 1]);
        }
    }
    lemma_first_index_at(t, NUL, 0, z as int);
    lemma_first_index_bounds(t, SPACE, 0);
}

/// One entry of a tree: a mode, a base name and the hash of its target.
#[derive(Debug)]
pub struct TreeItem {
    mode: Vec<u8>,
    base_name: Vec<u8>,
    hash: Vec<u8>,
}

impl View for TreeItem {
    type V = EntryView;

    closed spec fn view(&self) -> EntryView {
        (self.mode@, self.base_name@, self.hash@)
    }
}

/// The mode of a subdirectory entry: `040000` in ASCII.
pub open spec fn dir_mode() -> Seq<u8> {
    seq![48u8, 52u8, 48u8, 48u8, 48u8, 48u8]
}

/// The mode of a regular file entry: `100644` in ASCII.
pub open spec fn file_mode() -> Seq<u8> {
    seq![49u8, 48u8, 48u8, 54u8, 52u8, 52u8]
}

/// The name of the metadata directory that a tree walk leaves out: `.git`.
pub open spec fn metadata_dir_name() -> Seq<u8> {
    seq![46u8, 103u8, 105u8, 116u8]
}

/// Whether a directory child named `base_name` is the metadata directory.
pub fn is_metadata_dir(base_name: &str) -> (r: bool)
    ensures
        r == (base_name.spec_bytes() == metadata_dir_name()),
{
    let name: Vec<u8> = vec![46u8, 103u8, 105u8, 116u8];
    assert(name@ =~= metadata_dir_name());
    bytes_equal(base_name.as_bytes(), name.as_slice())
}

impl TreeItem {
    /// The entry for a child of a directory: mode `040000` for a subdirectory,
    /// `100644` for a file, with the child's base name and the hash of its object.
    pub fn for_child(is_dir: bool, base_name: &str, hash: Vec<u8>) -> (r: TreeItem)
        ensures
            r@ == (if is_dir {
                dir_mode()
            } else {
                file_mode()
            }, base_name.spec_bytes(), hash@),
    {
        let mode: Vec<u8> = if is_dir {
            vec![48u8, 52u8, 48u8, 48u8, 48u8, 48u8]
        } else {
            vec![49u8, 48u8, 48u8, 54u8, 52u8, 52u8]
        };
        assert(is_dir ==> mode@ =~= dir_mode());
        assert(!is_dir ==> mode@ =~= file_mode());
        let n = base_name.as_bytes();
        TreeItem { mode, base_name: copy_range(n, 0, n.len()), hash }
    }

    /// An entry with the UTF-8 bytes of `mode` and `base_name` and the given hash.
    pub fn new(mode: &str, base_name: &str, hash: Vec<u8>) -> (r: TreeItem)
        ensures
            r@ == (mode.spec_bytes(), base_name.spec_bytes(), hash@),
    {
        let m = mode.as_bytes();
        let n = base_name.as_bytes();
        TreeItem { mode: copy_range(m, 0, m.len()), base_name: copy_range(n, 0, n.len()), hash }
    }

    /// The bytes of the entry's mode.
    pub fn mode(&self) -> (r: &Vec<u8>)
        ensures
            r@ == self@.0,
    {
        &self.mode
    }

    /// The bytes of the entry's base name.
    pub fn base_name(&self) -> (r: &Vec<u8>)
        ensures
            r@ == self@.1,
    {
        &self.base_name
    }

    /// The raw hash bytes of the entry's target.
    pub fn hash(&self) -> (r: &Vec<u8>)
        ensures
            r@ == self@.2,
    {
        &self.hash
    }

    /// An entry with the same mode, name and hash.
    pub fn copy(&self) -> (r: TreeItem)
        ensures
            r@ == self@,
    {
        TreeItem {
            mode: copy_range(self.mode.as_slice(), 0, self.mode.len()),
            base_name: copy_range(self.base_name.as_slice(), 0, self.base_name.len()),
            hash: copy_range(self.hash.as_slice(), 0, self.hash.len()),
        }
    }

    /// The entry as it stands in a tree body.
    pub fn as_bytes(&self) -> (r: Vec<u8>)
        ensures
            r@ == entry_bytes(self@),
    {
        let mut out: Vec<u8> = Vec::new();
        append_bytes(&mut out, &self.mode);
        out.push(SPACE);
        append_bytes(&mut out, &self.base_name);
        out.push(NUL);
        append_bytes(&mut out, &self.hash);
        assert(out@ =~= entry_bytes(self@));
        out
    }
}

/// Whether `a` comes no later than `b` in byte-wise name order.
fn name_le_exec(a: &Vec<u8>, b: &Vec<u8>) -> (r: bool)
    ensures
        r == name_le(a@, b@),
{
    let mut i: usize = 0;
    assert(a@.skip(0) =~= a@ && b@.skip(0) =~= b@);
    while i < a.len() && i < b.len() && a[i] == b[i]
        invariant
            i <= a@.len(),
            i <= b@.len(),
            name_le(a@, b@) == name_le(a@.skip(i as int), b@.skip(i as int)),
        decreases a@.len() - i,
    {
        assert(a@.skip(i as int).drop_first() =~= a@.skip(i + 1));
        assert(b@.skip(i as int).drop_first() =~= b@.skip(i + 1));
        i = i + 1;
    }
    if i == a.len() {
        true
    } else if i == b.len() {
        false
    } else {
        assert(a@.skip(i as int)[0] == a@[i as int]);
        assert(b@.skip(i as int)[0] == b@[i as int]);
        a[i] < b[i]
    }
}

/// Inserts `item` after every entry of `v` whose name is not above its own.
fn insert_by_name(v: &mut Vec<TreeItem>, item: TreeItem)
    ensures
        final(v)@.map_values(|t: TreeItem| t@) == sorted_insert(
            old(v)@.map_values(|t: TreeItem| t@),
            item@,
        ),
{
    let ghost s = v@.map_values(|t: TreeItem| t@);
    let mut p: usize = 0;
    while p < v.len() && name_le_exec(&v[p].base_name, &item.base_name)
        invariant
            p <= v@.len(),
            v@ == old(v)@,
            s == v@.map_values(|t: TreeItem| t@),
            forall|j: int| 0 <= j < p ==> name_le(#[trigger] s[j].1, item@.1),
        decreases v@.len() - p,
    {
        p = p + 1;
    }
    proof {
        lemma_sorted_insert_at(s, item@, p as int);
    }
    let ghost x = item@;
    v.insert(p, item);
    assert(v@.map_values(|t: TreeItem| t@) =~= s.insert(p as int, x));
}

/// The bytes of the entries of `v`, in order.
fn encode_items(v: &Vec<TreeItem>) -> (r: Vec<u8>)
    ensures
        r@ == encode_entries(v@.map_values(|t: TreeItem| t@)),
{
    let ghost s = v@.map_values(|t: TreeItem| t@);
    let mut body: Vec<u8> = Vec::new();
    let mut i: usize = 0;
    while i < v.len()
        invariant
            i <= v@.len(),
            s == v@.map_values(|t: TreeItem| t@),
            body@ == encode_entries(s.take(i as int)),
        decreases v@.len() - i,
    {
        let b = v[i].as_bytes();
        append_bytes(&mut body, &b);
        assert(s.take(i + 1).drop_last() =~= s.take(i as int));
        i = i + 1;
    }
    assert(s.take(i as int) =~= s);
    body
}

/// The entries of one directory, in the order they were added.
#[derive(Debug)]
pub struct TreeObject {
    tree_items: Vec<TreeItem>,
}

impl View for TreeObject {
    type V = Seq<EntryView>;

    closed spec fn view(&self) -> Seq<EntryView> {
        self.tree_items@.map_values(|t: TreeItem| t@)
    }
}

impl TreeObject {
    /// A tree with no entries.
    pub fn new() -> (r: TreeObject)
        ensures
            r@ == Seq::<EntryView>::empty(),
    {
        let r = TreeObject { tree_items: Vec::new() };
        assert(r@ =~= Seq::<EntryView>::empty());
        r
    }

    /// Appends an entry; the order of entries matters only when encoding.
    pub fn push(&mut self, tree_item: TreeItem)
        ensures
            final(self)@ == old(self)@.push(tree_item@),
    {
        let ghost item = tree_item@;
        self.tree_items.push(tree_item);
        assert(self@ =~= old(self)@.push(item));
    }

    /// The tree body: each entry's bytes, in ascending name order (entries
    /// with equal names in the order they were added).
    pub fn get_body(&self) -> (r: Vec<u8>)
        ensures
            r@ == encode_entries(sort_by_name(self@)),
    {
        let mut sorted: Vec<TreeItem> = Vec::new();
        let mut i: usize = 0;
        assert(self@.take(0) =~= Seq::<EntryView>::empty());
        assert(sorted@.map_values(|t: TreeItem| t@) =~= Seq::<EntryView>::empty());
        while i < self.tree_items.len()
            invariant
                i <= self.tree_items@.len(),
                sorted@.map_values(|t: TreeItem| t@) == sort_by_name(self@.take(i as int)),
            decreases self.tree_items@.len() - i,
        {
            insert_by_name(&mut sorted, self.tree_items[i].copy());
            assert(self@.take(i + 1).drop_last() =~= self@.take(i as int));
            assert(self@.take(i + 1).last() == self@[i as int]);
            i = i + 1;
        }
        assert(self@.take(i as int) =~= self@);
        encode_items(&sorted)
    }

    /// The tree as a tree-typed object whose body is the encoded entries.
    pub fn to_object(&self) -> (r: Object)
        ensures
            r@ == (ObjectType::Tree, encode_entries(sort_by_name(self@))),
    {
        Object::new(ObjectType::Tree, self.get_body())
    }

    /// The canonical encoding of the tree object: `tree <size>`, NUL, body.
    pub fn get_contents_as_bytes(&self) -> (r: Vec<u8>)
        ensures
            r@ == serialize(ObjectType::Tree, encode_entries(sort_by_name(self@))),
    {
        self.to_object().get_contents()
    }

    /// The entries of this tree.
    pub fn items(&self) -> (r: &Vec<TreeItem>)
        ensures
            r@.map_values(|t: TreeItem| t@) == self@,
    {
        &self.tree_items
    }

    /// Decodes a tree body into its entries, in body order; fails with
    /// `DecodeError` exactly where `parse_entries` has no result.
    pub fn from(object_body: Vec<u8>) -> (r: Result<TreeObject, ObjectError>)
        ensures
            match parse_entries(object_body@, 0) {
                Some(es) => r matches Ok(t) && t@ == es,
                None => r matches Err(e) && e == ObjectError::DecodeError,
            },
    {
        let ghost b = object_body@;
        let mut tree_object = TreeObject::new();
        let ghost mut parsed: Seq<EntryView> = Seq::empty();
        let mut pos: usize = 0;
        while pos < object_body.len()
            invariant
                b == object_body@,
                pos <= b.len(),
                parse_entries(b, 0) == prepend(parsed, parse_entries(b, pos as int)),
                tree_object@ == parsed,
            decreases b.len() - pos,
        {
            let z = find_byte(&object_body, NUL, pos);
            let sp = find_byte(&object_body, SPACE, pos);
            proof {
                lemma_first_index_bounds(b, NUL, pos as int);
                lemma_first_index_bounds(b, SPACE, pos as int);
            }
            if z >= object_body.len() || sp >= z || object_body.len() - z < 21 {
                return Err(ObjectError::DecodeError);
            }
            let mode = copy_range(object_body.as_slice(), pos, sp);
            let base_name = copy_range(object_body.as_slice(), sp + 1, z);
            if !is_utf8(base_name.as_slice()) {
                return Err(ObjectError::DecodeError);
            }
            let hash = copy_range(object_body.as_slice(), z + 1, z + 21);
            let item = TreeItem { mode, base_name, hash };
            proof {
                let e = item@;
                let rest = parse_entries(b, z + 21);
                assert(parse_entries(b, pos as int) == prepend(seq![e], rest));
                match rest {
                    Some(r) => {
                        assert(parsed + (seq![e] + r) =~= parsed.push(e) + r);
                    },
                    None => {},
                }
                parsed = parsed.push(e);
            }
            tree_object.push(item);
            pos = z + 21;
        }
        assert(parsed + Seq::<EntryView>::empty() =~= parsed);
        Ok(tree_object)
    }
}

/// A tree with no entries has an empty body, so it is encoded as `tree 0` and NUL.
pub proof fn lemma_empty_tree()
    ensures
        serialize(ObjectType::Tree, encode_entries(Seq::<EntryView>::empty())) == seq![
            116u8,
            114u8,
            101u8,
            101u8,
            32u8,
            48u8,
            0u8,
        ],
{
    let body = encode_entries(Seq::<EntryView>::empty());
    assert(body =~= Seq::<u8>::empty());
    assert(crate::decimal::decimal(0) =~= seq![48u8]);
    assert(serialize(ObjectType::Tree, body) =~= seq![116u8, 114u8, 101u8, 101u8, 32u8, 48u8, 0u8]);
}

/// A child found in a directory: its base name, whether it is a directory, and
/// the raw hash of the object stored for it.
pub struct Child {
    pub name: String,
    pub is_dir: bool,
    pub hash: Vec<u8>,
}

/// Whether a child stays in its directory's tree: everything but the metadata
/// directory directly under the root.
pub open spec fn child_kept(c: &Child, at_root: bool) -> bool {
    !(at_root && c.is_dir && encode_utf8(c.name@) == metadata_dir_name())
}

/// The entry that stands for a child.
pub open spec fn child_entry(c: &Child) -> EntryView {
    (if c.is_dir {
        dir_mode()
    } else {
        file_mode()
    }, encode_utf8(c.name@), c.hash@)
}

/// The entries for the kept children, in the order of `cs`.
pub open spec fn child_entries(cs: Seq<Child>, at_root: bool) -> Seq<EntryView>
    decreases cs.len(),
{
    if cs.len() == 0 {
        Seq::empty()
    } else if child_kept(&cs.last(), at_root) {
        child_entries(cs.drop_last(), at_root).push(child_entry(&cs.last()))
    } else {
        child_entries(cs.drop_last(), at_root)
    }
}

/// Building a directory's tree from the same children, found in any order,
/// gives the same body and root hash, provided children that share a name are
/// identical.
pub proof fn lemma_same_children_same_tree(cs1: Seq<Child>, cs2: Seq<Child>, at_root: bool)
    requires
        child_entries(cs1, at_root).to_multiset() == child_entries(cs2, at_root).to_multiset(),
        names_determine_entries(child_entries(cs1, at_root).to_multiset()),
    ensures
        encode_entries(sort_by_name(child_entries(cs1, at_root))) == encode_entries(
            sort_by_name(child_entries(cs2, at_root)),
        ),
        object_hash(ObjectType::Tree, encode_entries(sort_by_name(child_entries(cs1, at_root))))
            == object_hash(
            ObjectType::Tree,
            encode_entries(sort_by_name(child_entries(cs2, at_root))),
        ),
{
    lemma_insertion_order_irrelevant(child_entries(cs1, at_root), child_entries(cs2, at_root));
}

impl TreeObject {
    /// The tree of one directory from its children, leaving out the metadata
    /// directory when `at_root` holds.
    pub fn from_children(children: Vec<Child>, at_root: bool) -> (r: TreeObject)
        ensures
            r@ == child_entries(children@, at_root),
    {
        let mut tree = TreeObject::new();
        let mut i: usize = 0;
        while i < children.len()
            invariant
                i <= children@.len(),
                tree@ == child_entries(children@.take(i as int), at_root),
            decreases children@.len() - i,
        {
            let c = &children[i];
            let name = c.name.as_str();
            assert(children@.take(i + 1).drop_last() =~= children@.take(i as int));
            assert(children@.take(i + 1).last() == children@[i as int]);
            if !(at_root && c.is_dir && is_metadata_dir(name)) {
                let hash = copy_range(c.hash.as_slice(), 0, c.hash.len());
                assert(hash@ =~= c.hash@);
                let item = TreeItem::for_child(c.is_dir, name, hash);
                assert(item@ == child_entry(c));
                tree.push(item);
            }
            i = i + 1;
        }
        assert(children@.take(i as int) =~= children@);
        tree
    }
}

} // verus!
