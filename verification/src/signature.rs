//! The function signatures that a checker asks for, and the order in which they are applied.
use vstd::prelude::*;
use vstd::relations::*;
use vstd::seq_lib::*;

verus! {

/// A set of function signatures that a checker asks for.
#[derive(Debug, Clone)]
pub struct SignatureEntry {
    /// The fields of the entry, written so that entries are ordered as these bytes are.
    pub key: Vec<u8>,
}

impl View for SignatureEntry {
    type V = Seq<u8>;

    open spec fn view(&self) -> Seq<u8> {
        self.key@
    }
}

/// The keys of `list`.
pub open spec fn keys_of(list: Seq<SignatureEntry>) -> Seq<Seq<u8>> {
    list.map_values(|entry: SignatureEntry| entry@)
}

/// Whether `a` comes before `b` in lexicographic order, or is `b`.
pub open spec fn bytes_leq(a: Seq<u8>, b: Seq<u8>) -> bool
    decreases a.len(),
{
    if a.len() == 0 {
        true
    } else if b.len() == 0 {
        false
    } else if a[0] != b[0] {
        a[0] < b[0]
    } else {
        bytes_leq(a.drop_first(), b.drop_first())
    }
}

/// The lexicographic order of keys.
pub open spec fn key_order() -> spec_fn(Seq<u8>, Seq<u8>) -> bool {
    |a: Seq<u8>, b: Seq<u8>| bytes_leq(a, b)
}

/// `keys` in lexicographic order.
pub open spec fn in_order(keys: Seq<Seq<u8>>) -> Seq<Seq<u8>> {
    keys.sort_by(key_order())
}

proof fn lemma_leq_antisymmetric(a: Seq<u8>, b: Seq<u8>)
    requires
        bytes_leq(a, b),
        bytes_leq(b, a),
    ensures
        a == b,
    decreases a.len(),
{
    if a.len() == 0 || b.len() == 0 {
        assert(a =~= b);
    } else {
        lemma_leq_antisymmetric(a.drop_first(), b.drop_first());
        assert(a =~= seq![a[0]] + a.drop_first());
        assert(b =~= seq![b[0]] + b.drop_first());
    }
}

proof fn lemma_leq_transitive(a: Seq<u8>, b: Seq<u8>, c: Seq<u8>)
    requires
        bytes_leq(a, b),
        bytes_leq(b, c),
    ensures
        bytes_leq(a, c),
    decreases a.len(),
{
    if a.len() != 0 && b.len() != 0 && c.len() != 0 && a[0] == b[0] && b[0] == c[0] {
        lemma_leq_transitive(a.drop_first(), b.drop_first(), c.drop_first());
    }
}

proof fn lemma_leq_total(a: Seq<u8>, b: Seq<u8>)
    ensures
        bytes_leq(a, b) || bytes_leq(b, a),
    decreases a.len(),
{
    if a.len() != 0 && b.len() != 0 && a[0] == b[0] {
        lemma_leq_total(a.drop_first(), b.drop_first());
    }
}

/// The order of keys is total.
pub proof fn lemma_key_order_total()
    ensures
        total_ordering(key_order()),
{
    let leq = key_order();
    assert forall|a: Seq<u8>| #[trigger] leq(a, a) by {
        lemma_leq_total(a, a);
    }
    assert forall|a: Seq<u8>, b: Seq<u8>| #[trigger] leq(a, b) && #[trigger] leq(b, a) implies a
        == b by {
        lemma_leq_antisymmetric(a, b);
    }
    assert forall|a: Seq<u8>, b: Seq<u8>, c: Seq<u8>| #[trigger]
        leq(a, b) && #[trigger] leq(b, c) implies leq(a, c) by {
        lemma_leq_transitive(a, b, c);
    }
    assert forall|a: Seq<u8>, b: Seq<u8>| #[trigger] leq(a, b) || #[trigger] leq(b, a) by {
        lemma_leq_total(a, b);
    }
}

/// Signatures are applied deterministically: lists that hold the same entries, however they are
/// arranged, are put into the same order.
pub proof fn law_signature_order_is_deterministic(a: Seq<Seq<u8>>, b: Seq<Seq<u8>>)
    requires
        a.to_multiset() == b.to_multiset(),
    ensures
        in_order(a) == in_order(b),
{
    lemma_key_order_total();
    a.lemma_sort_by_ensures(key_order());
    b.lemma_sort_by_ensures(key_order());
    lemma_sorted_unique(in_order(a), in_order(b), key_order());
}

/// Putting entries in order drops none, adds none, and leaves no entry before a smaller one.
pub proof fn law_signature_order_is_sorted(keys: Seq<Seq<u8>>)
    ensures
        in_order(keys).to_multiset() == keys.to_multiset(),
        forall|i: int, j: int|
            0 <= i <= j < in_order(keys).len() ==> #[trigger] bytes_leq(
                in_order(keys)[i],
                in_order(keys)[j],
            ),
{
    lemma_key_order_total();
    keys.lemma_sort_by_ensures(key_order());
    let leq = key_order();
    let sorted = in_order(keys);
    assert forall|i: int, j: int| 0 <= i <= j < sorted.len() implies #[trigger] bytes_leq(
        sorted[i],
        sorted[j],
    ) by {
        if i == j {
            lemma_leq_total(sorted[i], sorted[i]);
        } else {
            assert(leq(sorted[i], sorted[j]));
        }
    }
}

impl SignatureEntry {
    /// Whether this entry comes before `other`, or is the same.
    pub fn is_at_most(&self, other: &SignatureEntry) -> (res: bool)
        ensures
            res == bytes_leq(self@, other@),
    {
        let a = &self.key;
        let b = &other.key;
        let mut i: usize = 0;
        proof {
            assert(a@.skip(0) =~= a@);
            assert(b@.skip(0) =~= b@);
        }
        loop
            invariant
                i <= a.len(),
                i <= b.len(),
                bytes_leq(a@, b@) == bytes_leq(a@.skip(i as int), b@.skip(i as int)),
                a@ == self@,
                b@ == other@,
            decreases a.len() - i,
        {
            if i == a.len() {
                return true;
            }
            if i == b.len() {
                return false;
            }
            if a[i] != b[i] {
                return a[i] < b[i];
            }
            proof {
                assert(a@.skip(i as int).drop_first() =~= a@.skip(i + 1));
                assert(b@.skip(i as int).drop_first() =~= b@.skip(i + 1));
            }
            i += 1;
        }
    }
}

/// Puts `entry` into its place in `sorted`.
fn insert_in_order(sorted: &mut Vec<SignatureEntry>, entry: SignatureEntry)
    requires
        sorted_by(keys_of(old(sorted)@), key_order()),
    ensures
        sorted_by(keys_of(final(sorted)@), key_order()),
        keys_of(final(sorted)@).to_multiset() == keys_of(old(sorted)@).to_multiset().insert(entry@),
{
    let ghost keys = keys_of(sorted@);
    let ghost leq = key_order();
    let mut at: usize = 0;
    while at < sorted.len() && !entry.is_at_most(&sorted[at])
        invariant
            at <= sorted.len(),
            keys == keys_of(sorted@),
            forall|i: int| 0 <= i < at ==> !bytes_leq(entry@, #[trigger] keys[i]),
        decreases sorted.len() - at,
    {
        at += 1;
    }
    let ghost key = entry@;
    sorted.insert(at, entry);
    proof {
        lemma_key_order_total();
        assert(keys_of(sorted@) =~= keys.insert(at as int, key));
        to_multiset_insert(keys, at as int, key);
        let now = keys.insert(at as int, key);
        assert forall|i: int, j: int| 0 <= i < j < now.len() implies #[trigger] leq(
            now[i],
            now[j],
        ) by {
            if i < at {
                lemma_leq_total(key, keys[i]);
                if j > at {
                    assert(leq(keys[i], keys[j - 1]));
                } else if j < at {
                    assert(leq(keys[i], keys[j]));
                }
            } else if i == at {
                assert(bytes_leq(key, keys[at as int]));
                if j - 1 > at {
                    assert(leq(keys[at as int], keys[j - 1]));
                    lemma_leq_transitive(key, keys[at as int], keys[j - 1]);
                }
            } else {
                assert(leq(keys[i - 1], keys[j - 1]));
            }
        }
    }
}

/// `entries` in the order in which they are applied.
pub fn sort_entries(entries: Vec<SignatureEntry>) -> (res: Vec<SignatureEntry>)
    ensures
        keys_of(res@) == in_order(keys_of(entries@)),
{
    let ghost keys = keys_of(entries@);
    let mut rest = entries;
    let mut sorted: Vec<SignatureEntry> = Vec::new();
    proof {
        assert(keys_of(sorted@) =~= Seq::<Seq<u8>>::empty());
        keys_of(sorted@).to_multiset_ensures();
        assert(keys.to_multiset() =~= keys_of(sorted@).to_multiset().add(keys.to_multiset()));
    }
    while rest.len() > 0
        invariant
            sorted_by(keys_of(sorted@), key_order()),
            keys.to_multiset() == keys_of(sorted@).to_multiset().add(keys_of(rest@).to_multiset()),
        decreases rest.len(),
    {
        let ghost before = rest@;
        let ghost placed = keys_of(sorted@).to_multiset();
        match rest.pop() {
            Some(entry) => {
                let ghost key = entry@;
                insert_in_order(&mut sorted, entry);
                proof {
                    assert(keys_of(before) =~= keys_of(rest@).push(key));
                    to_multiset_build(keys_of(rest@), key);
                    assert(placed.insert(key).add(keys_of(rest@).to_multiset()) =~= placed.add(
                        keys_of(rest@).to_multiset().insert(key),
                    ));
                }
            },
            None => {},
        }
    }
    proof {
        assert(keys_of(rest@) =~= Seq::<Seq<u8>>::empty());
        keys_of(rest@).to_multiset_ensures();
        assert(keys.to_multiset() =~= keys_of(sorted@).to_multiset());
        lemma_key_order_total();
        keys.lemma_sort_by_ensures(key_order());
        lemma_sorted_unique(keys_of(sorted@), in_order(keys), key_order());
    }
    sorted
}

} // verus!
