//! Capability providers and the merged import table.
//!
//! A provider offers an ordered sequence of `(key, binding)` pairs.  The
//! table builder applies those offers in order, a later offer for a key
//! shadowing an earlier one, so that merging a sequence of providers gives
//! deterministic "last provider wins" precedence.

use vstd::prelude::*;

use crate::binding::{HostBinding, ImportKey};

verus! {

/// The mathematical value of an [`ImportKey`]: its two components.
pub type KeyView = (Seq<char>, Seq<char>);

/// The mathematical value of one offered pair: the key's components
/// together with the offered binding.
pub type OfferView = ((Seq<char>, Seq<char>), HostBinding);

/// The views of a sequence of offered pairs.
pub open spec fn offer_views(s: Seq<(ImportKey, HostBinding)>) -> Seq<OfferView> {
    s.map_values(|e: (ImportKey, HostBinding)| (e.0@, e.1))
}

/// The table obtained by applying each offer of `s`, in order, to the
/// table `m`: every offer inserts its binding under its key, overwriting
/// any earlier entry with the same key.
pub open spec fn apply_offers(
    m: Map<KeyView, HostBinding>,
    s: Seq<OfferView>,
) -> Map<KeyView, HostBinding>
    decreases s.len(),
{
    if s.len() == 0 {
        m
    } else {
        apply_offers(m, s.drop_last()).insert(s.last().0, s.last().1)
    }
}

/// The table built from the offers of `s` alone.
pub open spec fn table_of(s: Seq<OfferView>) -> Map<KeyView, HostBinding> {
    apply_offers(Map::empty(), s)
}

/// The binding that the offers of `s` leave under `k`: the last offer for
/// `k`, if there is one.
pub open spec fn offers_lookup(s: Seq<OfferView>, k: KeyView) -> Option<HostBinding>
    decreases s.len(),
{
    if s.len() == 0 {
        Option::None
    } else if s.last().0 == k {
        Option::Some(s.last().1)
    } else {
        offers_lookup(s.drop_last(), k)
    }
}

/// No two offers of `s` name the same key.
pub open spec fn distinct_keys(s: Seq<OfferView>) -> bool {
    forall|i: int, j: int| 0 <= i < j < s.len() ==> s[i].0 != s[j].0
}

/// The set of keys named by the offers of `s`.
pub open spec fn offer_keys(s: Seq<OfferView>) -> Set<KeyView>
    decreases s.len(),
{
    if s.len() == 0 {
        Set::empty()
    } else {
        offer_keys(s.drop_last()).insert(s.last().0)
    }
}

/// Applying offers looks up as `offers_lookup` says: an offered key ends
/// at its last offered binding, and a key never offered keeps whatever the
/// starting table had for it.
pub proof fn lemma_apply_offers_lookup(
    m: Map<KeyView, HostBinding>,
    s: Seq<OfferView>,
    k: KeyView,
)
    ensures
        apply_offers(m, s).contains_key(k) == (m.contains_key(k) || offers_lookup(s, k) is Some),
        offers_lookup(s, k) matches Some(b) ==> apply_offers(m, s)[k] == b,
        offers_lookup(s, k) is None && m.contains_key(k) ==> apply_offers(m, s)[k] == m[k],
    decreases s.len(),
{
    if s.len() > 0 {
        lemma_apply_offers_lookup(m, s.drop_last(), k);
    }
}

/// An offer for `k` exists exactly when some position of `s` names `k`.
pub proof fn lemma_offers_lookup_exists(s: Seq<OfferView>, k: KeyView)
    ensures
        (offers_lookup(s, k) is Some) <==> (exists|i: int| 0 <= i < s.len() && (#[trigger] s[i]).0
            == k),
    decreases s.len(),
{
    if s.len() > 0 {
        lemma_offers_lookup_exists(s.drop_last(), k);
        if s.last().0 == k {
            assert(s[s.len() - 1].0 == k);
        }
        if exists|i: int| 0 <= i < s.len() && (#[trigger] s[i]).0 == k {
            let i = choose|i: int| 0 <= i < s.len() && (#[trigger] s[i]).0 == k;
            if i < s.len() - 1 {
                assert(s.drop_last()[i].0 == k);
            }
        }
        if offers_lookup(s, k) is Some && s.last().0 != k {
            let i = choose|i: int|
                0 <= i < s.drop_last().len() && (#[trigger] s.drop_last()[i]).0 == k;
            assert(s[i].0 == k);
        }
    }
}

/// Dropping the last offer keeps the remaining keys distinct.
proof fn lemma_distinct_drop_last(s: Seq<OfferView>)
    requires
        distinct_keys(s),
        s.len() > 0,
    ensures
        distinct_keys(s.drop_last()),
{
    assert forall|i: int, j: int| 0 <= i < j < s.drop_last().len() implies (#[trigger] s.drop_last()[i]).0 != (#[trigger] s.drop_last()[j]).0 by {
        assert(s[i].0 != s[j].0);
    }
}

/// When keys are distinct, the offer at any position is the one the
/// lookup returns for its key.
pub proof fn lemma_lookup_at_unique(s: Seq<OfferView>, i: int, k: KeyView)
    requires
        distinct_keys(s),
        0 <= i < s.len(),
        s[i].0 == k,
    ensures
        offers_lookup(s, k) == Option::Some(s[i].1),
    decreases s.len(),
{
    if i == s.len() - 1 {
    } else {
        assert(s[i].0 != s[s.len() - 1].0);
        lemma_distinct_drop_last(s);
        assert(s.drop_last()[i] == s[i]);
        lemma_lookup_at_unique(s.drop_last(), i, k);
    }
}

/// Two offer sequences with the same keys, whose offers for `k` carry the
/// same bindings, leave the same binding under `k`.
proof fn lemma_lookup_agree(s: Seq<OfferView>, t: Seq<OfferView>, k: KeyView)
    requires
        s.len() == t.len(),
        forall|j: int| 0 <= j < s.len() ==> (#[trigger] s[j]).0 == (#[trigger] t[j]).0,
        forall|j: int| 0 <= j < s.len() && (#[trigger] s[j]).0 == k ==> s[j].1 == t[j].1,
    ensures
        offers_lookup(s, k) == offers_lookup(t, k),
    decreases s.len(),
{
    if s.len() > 0 {
        assert(s[s.len() - 1].0 == t[s.len() - 1].0);
        assert forall|j: int| 0 <= j < s.drop_last().len() implies (#[trigger] s.drop_last()[j]).0
            == (#[trigger] t.drop_last()[j]).0 by {
            assert(s[j].0 == t[j].0);
        }
        assert forall|j: int|
            0 <= j < s.drop_last().len() && (#[trigger] s.drop_last()[j]).0 == k implies s.drop_last()[j].1
            == t.drop_last()[j].1 by {
            assert(s[j].0 == k);
        }
        lemma_lookup_agree(s.drop_last(), t.drop_last(), k);
    }
}

/// A table built from offers with distinct keys has exactly one entry per
/// offer.
pub proof fn lemma_table_len(s: Seq<OfferView>)
    requires
        distinct_keys(s),
    ensures
        table_of(s).dom().finite(),
        table_of(s).dom().len() == s.len(),
    decreases s.len(),
{
    broadcast use vstd::set::group_set_axioms;

    if s.len() == 0 {
        assert(table_of(s).dom() =~= Set::empty());
    } else {
        lemma_distinct_drop_last(s);
        lemma_table_len(s.drop_last());
        let k = s.last().0;
        lemma_apply_offers_lookup(Map::empty(), s.drop_last(), k);
        lemma_offers_lookup_exists(s.drop_last(), k);
        if table_of(s.drop_last()).contains_key(k) {
            let i = choose|i: int|
                0 <= i < s.drop_last().len() && (#[trigger] s.drop_last()[i]).0 == k;
            assert(s[i].0 == s[s.len() - 1].0);
            assert(false);
        }
        assert(table_of(s).dom() =~= table_of(s.drop_last()).dom().insert(k));
    }
}

/// Replacing the binding at one position, keys staying distinct, is an
/// insert on the table the offers build.
proof fn lemma_update_binding(s: Seq<OfferView>, i: int, b: HostBinding)
    requires
        distinct_keys(s),
        0 <= i < s.len(),
    ensures
        distinct_keys(s.update(i, (s[i].0, b))),
        table_of(s.update(i, (s[i].0, b))) == table_of(s).insert(s[i].0, b),
{
    let k = s[i].0;
    let s2 = s.update(i, (k, b));
    assert forall|p: int, q: int| 0 <= p < q < s2.len() implies (#[trigger] s2[p]).0
        != (#[trigger] s2[q]).0 by {
        assert(s[p].0 != s[q].0);
    }
    lemma_lookup_at_unique(s2, i, k);
    lemma_apply_offers_lookup(Map::empty(), s2, k);
    assert forall|k2: KeyView| #[trigger] table_of(s2).contains_key(k2) == table_of(s).insert(
        k,
        b,
    ).contains_key(k2) && (table_of(s2).contains_key(k2) ==> table_of(s2)[k2] == table_of(
        s,
    ).insert(k, b)[k2]) by {
        lemma_apply_offers_lookup(Map::empty(), s, k2);
        lemma_apply_offers_lookup(Map::empty(), s2, k2);
        lemma_offers_lookup_exists(s, k2);
        lemma_offers_lookup_exists(s2, k2);
        if k2 == k {
            assert(s2[i].0 == k2);
        } else {
            lemma_lookup_agree(s, s2, k2);
            assert forall|j: int| 0 <= j < s.len() implies (#[trigger] s[j]).0 == (
            #[trigger] s2[j]).0 by {}
        }
    }
    assert(table_of(s2) =~= table_of(s).insert(k, b));
}

/// Appending one offer is an insert on the table the offers build.
proof fn lemma_push_offer(s: Seq<OfferView>, e: OfferView)
    ensures
        table_of(s.push(e)) == table_of(s).insert(e.0, e.1),
{
    assert(s.push(e).drop_last() =~= s);
}

/// One provider of host capabilities: the ordered `(key, binding)` pairs
/// it offers to modules.  Offers are applied in this order when the
/// provider is merged into a table, so a later offer for a key shadows an
/// earlier one.
pub struct Provider {
    pub offers: Vec<(ImportKey, HostBinding)>,
}

impl View for Provider {
    type V = Seq<OfferView>;

    open spec fn view(&self) -> Seq<OfferView> {
        offer_views(self.offers@)
    }
}

impl Provider {
    /// A provider that offers nothing yet.
    pub fn new() -> (r: Provider)
        ensures
            r@ == Seq::<OfferView>::empty(),
    {
        let r = Provider { offers: Vec::new() };
        proof {
            assert(r@ =~= Seq::<OfferView>::empty());
        }
        r
    }

    /// Append one offered pair to the enumeration.
    pub fn provide(&mut self, key: ImportKey, binding: HostBinding)
        ensures
            final (self)@ == old(self)@.push((key@, binding)),
    {
        self.offers.push((key, binding));
        proof {
            assert(self@ =~= old(self)@.push((key@, binding)));
        }
    }
}

/// The merged lookup table: at most one entry per key.  Inserting under a
/// key that is already present overwrites that entry, never appends, so
/// the key set stays duplicate-free by construction.
pub struct ImportTable {
    entries: Vec<(ImportKey, HostBinding)>,
}

impl View for ImportTable {
    type V = Map<KeyView, HostBinding>;

    open spec fn view(&self) -> Map<KeyView, HostBinding> {
        table_of(self.entries_view())
    }
}

impl ImportTable {
    /// The table's entries, in storage order.
    pub closed spec fn entries_view(&self) -> Seq<OfferView> {
        offer_views(self.entries@)
    }

    /// Well-formed: no two entries share a key.
    pub open spec fn wf(&self) -> bool {
        distinct_keys(self.entries_view())
    }

    /// An empty table.
    pub fn new() -> (r: ImportTable)
        ensures
            r.wf(),
            r@ == Map::<KeyView, HostBinding>::empty(),
            r.entries_view() == Seq::<OfferView>::empty(),
    {
        let r = ImportTable { entries: Vec::new() };
        proof {
            assert(r.entries_view() =~= Seq::<OfferView>::empty());
        }
        r
    }

    /// The position of the entry for `key`, if the table has one.
    fn position_of(&self, key: &ImportKey) -> (r: Option<usize>)
        ensures
            r matches Some(i) ==> i < self.entries@.len() && self.entries@[i as int].0@ == key@,
            r is None ==> forall|i: int|
                0 <= i < self.entries@.len() ==> (#[trigger] self.entries@[i]).0@ != key@,
    {
        let n = self.entries.len();
        let mut i: usize = 0;
        while i < n
            invariant
                i <= n,
                n == self.entries@.len(),
                forall|j: int| 0 <= j < i ==> (#[trigger] self.entries@[j]).0@ != key@,
            decreases n - i,
        {
            if self.entries[i].0.key_eq(key) {
                return Some(i);
            }
            i += 1;
        }
        None
    }

    /// The number of entries, which equals the number of distinct keys.
    pub fn len(&self) -> (r: usize)
        requires
            self.wf(),
        ensures
            r == self@.dom().len(),
    {
        proof {
            lemma_table_len(self.entries_view());
        }
        self.entries.len()
    }

    /// The binding the table holds for `key`, if any.
    pub fn lookup(&self, key: &ImportKey) -> (r: Option<HostBinding>)
        requires
            self.wf(),
        ensures
            r == if self@.contains_key(key@) {
                Option::Some(self@[key@])
            } else {
                Option::None::<HostBinding>
            },
    {
        proof {
            lemma_apply_offers_lookup(Map::empty(), self.entries_view(), key@);
            lemma_offers_lookup_exists(self.entries_view(), key@);
        }
        match self.position_of(key) {
            Some(i) => {
                proof {
                    assert(self.entries_view()[i as int].0 == key@);
                    lemma_lookup_at_unique(self.entries_view(), i as int, key@);
                }
                Some(self.entries[i].1)
            },
            None => {
                proof {
                    assert forall|i: int| 0 <= i < self.entries_view().len() implies (
                    #[trigger] self.entries_view()[i]).0 != key@ by {
                        assert(self.entries@[i].0@ != key@);
                    }
                }
                None
            },
        }
    }

    /// Insert `binding` under `key`, overwriting any entry with that key.
    pub fn insert(&mut self, key: ImportKey, binding: HostBinding)
        requires
            old(self).wf(),
        ensures
            final (self).wf(),
            final (self)@ == old(self)@.insert(key@, binding),
    {
        match self.position_of(&key) {
            Some(i) => {
                proof {
                    assert(self.entries_view()[i as int].0 == key@);
                }
                self.entries.set(i, (key, binding));
                proof {
                    let s = old(self).entries_view();
                    assert(self.entries_view() =~= s.update(i as int, (s[i as int].0, binding)));
                    lemma_update_binding(s, i as int, binding);
                }
            },
            None => {
                self.entries.push((key, binding));
                proof {
                    let s = old(self).entries_view();
                    assert(self.entries_view() =~= s.push((key@, binding)));
                    lemma_push_offer(s, (key@, binding));
                    assert forall|p: int, q: int|
                        0 <= p < q < self.entries_view().len() implies (
                    #[trigger] self.entries_view()[p]).0 != (#[trigger] self.entries_view()[q]).0 by {
                        if q < s.len() {
                            assert(s[p].0 != s[q].0);
                        } else {
                            assert(old(self).entries@[p].0@ != key@);
                        }
                    }
                }
            },
        }
    }

    /// Apply every offer of `p`, in enumeration order, to this table.
    /// The provider is only read, never changed.
    pub fn add_provider(&mut self, p: &Provider)
        requires
            old(self).wf(),
        ensures
            final (self).wf(),
            final (self)@ == apply_offers(old(self)@, p@),
    {
        let n = p.offers.len();
        let mut i: usize = 0;
        while i < n
            invariant
                i <= n,
                n == p.offers@.len(),
                self.wf(),
                self@ == apply_offers(old(self)@, p@.take(i as int)),
            decreases n - i,
        {
            let key = p.offers[i].0.dup();
            let binding = p.offers[i].1;
            proof {
                let t = p@.take(i as int + 1);
                assert(t.drop_last() =~= p@.take(i as int));
                assert(t.last() == (key@, binding));
            }
            self.insert(key, binding);
            i += 1;
        }
        proof {
            assert(p@.take(n as int) =~= p@);
        }
    }

    /// A copy of every entry, as `(namespace, name, binding)` triples, in
    /// the table's storage order.  The triples cover the whole table: one
    /// per key, each carrying the table's binding for that key.
    pub fn snapshot(&self) -> (r: Vec<(String, String, HostBinding)>)
        requires
            self.wf(),
        ensures
            snapshot_matches(self@, r@),
    {
        let n = self.entries.len();
        let mut r: Vec<(String, String, HostBinding)> = Vec::new();
        let mut i: usize = 0;
        while i < n
            invariant
                i <= n,
                n == self.entries@.len(),
                r@.len() == i,
                forall|j: int|
                    0 <= j < i ==> #[trigger] triple_view(r@[j]) == self.entries_view()[j],
            decreases n - i,
        {
            let e = &self.entries[i];
            r.push((e.0.namespace.clone(), e.0.name.clone(), e.1));
            i += 1;
        }
        proof {
            let s = self.entries_view();
            lemma_table_len(s);
            assert forall|j: int| 0 <= j < r@.len() implies self@.contains_key(
                #[trigger] triple_key(r@[j]),
            ) && self@[triple_key(r@[j])] == r@[j].2 by {
                assert(triple_view(r@[j]) == s[j]);
                lemma_lookup_at_unique(s, j, s[j].0);
                lemma_apply_offers_lookup(Map::empty(), s, s[j].0);
            }
            assert forall|j: int, l: int| 0 <= j < l < r@.len() implies triple_key(r@[j])
                != triple_key(r@[l]) by {
                assert(triple_view(r@[j]) == s[j]);
                assert(triple_view(r@[l]) == s[l]);
            }
            assert forall|k: KeyView| #[trigger] self@.contains_key(k) implies exists|j: int|
                0 <= j < r@.len() && #[trigger] triple_key(r@[j]) == k by {
                lemma_apply_offers_lookup(Map::empty(), s, k);
                lemma_offers_lookup_exists(s, k);
                let j = choose|j: int| 0 <= j < s.len() && (#[trigger] s[j]).0 == k;
                assert(triple_view(r@[j]) == s[j]);
                assert(triple_key(r@[j]) == k);
            }
        }
        r
    }
}

/// The key components of one snapshot triple.
pub open spec fn triple_key(t: (String, String, HostBinding)) -> KeyView {
    (t.0@, t.1@)
}

/// The offer a snapshot triple stands for.
pub open spec fn triple_view(t: (String, String, HostBinding)) -> OfferView {
    ((t.0@, t.1@), t.2)
}

/// The triples `v` are a full dump of the table `m`: one triple per key
/// of `m`, each carrying `m`'s binding for its key, and nothing else.
pub open spec fn snapshot_matches(
    m: Map<KeyView, HostBinding>,
    v: Seq<(String, String, HostBinding)>,
) -> bool {
    &&& v.len() == m.dom().len()
    &&& forall|i: int|
        0 <= i < v.len() ==> m.contains_key(#[trigger] triple_key(v[i])) && m[triple_key(v[i])]
            == v[i].2
    &&& forall|i: int, j: int| 0 <= i < j < v.len() ==> triple_key(v[i]) != triple_key(v[j])
    &&& forall|k: KeyView|
        #[trigger] m.contains_key(k) ==> exists|i: int|
            0 <= i < v.len() && #[trigger] triple_key(v[i]) == k
}

/// The table built by merging the providers of `ps` in order, each later
/// provider's offers applied over the earlier ones.
pub open spec fn merge_seq(ps: Seq<Seq<OfferView>>) -> Map<KeyView, HostBinding>
    decreases ps.len(),
{
    if ps.len() == 0 {
        Map::empty()
    } else {
        apply_offers(merge_seq(ps.drop_last()), ps.last())
    }
}

/// The views of a sequence of providers.
pub open spec fn provider_views(ps: Seq<Provider>) -> Seq<Seq<OfferView>> {
    ps.map_values(|p: Provider| p@)
}

/// Merge an ordered sequence of providers into one table, the first
/// provider applied first, so that on a key offered by several providers
/// the last one's binding stands.
pub fn merge_providers(providers: &Vec<Provider>) -> (r: ImportTable)
    ensures
        r.wf(),
        r@ == merge_seq(provider_views(providers@)),
{
    let n = providers.len();
    let mut r = ImportTable::new();
    let mut i: usize = 0;
    while i < n
        invariant
            i <= n,
            n == providers@.len(),
            r.wf(),
            r@ == merge_seq(provider_views(providers@).take(i as int)),
        decreases n - i,
    {
        proof {
            let vs = provider_views(providers@);
            assert(vs.take(i as int + 1).drop_last() =~= vs.take(i as int));
            assert(vs.take(i as int + 1).last() == providers@[i as int]@);
        }
        r.add_provider(&providers[i]);
        i += 1;
    }
    proof {
        assert(provider_views(providers@).take(n as int) =~= provider_views(providers@));
    }
    r
}

/// Merging exactly two providers applies the second provider's offers
/// over the table built from the first, the form the merge laws below
/// speak of.
pub proof fn lemma_merge_two(p1: Seq<OfferView>, p2: Seq<OfferView>)
    ensures
        merge_seq(seq![p1, p2]) == apply_offers(table_of(p1), p2),
{
    let ps = seq![p1, p2];
    assert(ps.drop_last() =~= seq![p1]);
    assert(seq![p1].drop_last() =~= Seq::<Seq<OfferView>>::empty());
    assert(merge_seq(Seq::<Seq<OfferView>>::empty()) == Map::<KeyView, HostBinding>::empty());
    assert(seq![p1].last() == p1);
    assert(merge_seq(seq![p1]) == table_of(p1));
    assert(ps.last() == p2);
    assert(merge_seq(ps) == apply_offers(merge_seq(seq![p1]), p2));
}

/// Last provider wins: when two providers are merged in order and both
/// offer a binding for the key `k`, the merged table holds the second
/// provider's binding for `k` (the last one it offers).
pub proof fn lemma_last_provider_wins(
    p1: Seq<OfferView>,
    p2: Seq<OfferView>,
    k: KeyView,
    b: HostBinding,
)
    requires
        offers_lookup(p1, k) is Some,
        offers_lookup(p2, k) == Option::Some(b),
    ensures
        apply_offers(table_of(p1), p2).contains_key(k),
        apply_offers(table_of(p1), p2)[k] == b,
{
    lemma_apply_offers_lookup(table_of(p1), p2, k);
}

/// Keys that differ in their namespace never collide: inserting under one
/// namespace neither adds, removes nor changes an entry whose key has the
/// same name under another namespace, and the inserted key resolves to
/// its own binding.
pub proof fn lemma_namespace_isolation(
    m: Map<KeyView, HostBinding>,
    ns_a: Seq<char>,
    ns_b: Seq<char>,
    name: Seq<char>,
    b: HostBinding,
)
    requires
        ns_a != ns_b,
    ensures
        m.insert((ns_a, name), b).contains_key((ns_b, name)) == m.contains_key((ns_b, name)),
        m.contains_key((ns_b, name)) ==> m.insert((ns_a, name), b)[(ns_b, name)] == m[(ns_b,
            name)],
        m.insert((ns_a, name), b)[(ns_a, name)] == b,
{
    assert((ns_a, name) != (ns_b, name));
}

/// The keys of `s` characterised: a key is in `offer_keys(s)` exactly
/// when some offer of `s` names it; the set is finite.
pub proof fn lemma_offer_keys(s: Seq<OfferView>)
    ensures
        offer_keys(s).finite(),
        forall|k: KeyView| #[trigger] offer_keys(s).contains(k) <==> (offers_lookup(s, k) is Some),
    decreases s.len(),
{
    broadcast use vstd::set::group_set_axioms;

    if s.len() > 0 {
        lemma_offer_keys(s.drop_last());
    }
}

/// With distinct keys, a provider's key set has one key per offer.
pub proof fn lemma_offer_keys_len(s: Seq<OfferView>)
    requires
        distinct_keys(s),
    ensures
        offer_keys(s).len() == s.len(),
    decreases s.len(),
{
    broadcast use vstd::set::group_set_axioms;

    if s.len() > 0 {
        lemma_distinct_drop_last(s);
        lemma_offer_keys_len(s.drop_last());
        lemma_offer_keys(s.drop_last());
        let k = s.last().0;
        if offer_keys(s.drop_last()).contains(k) {
            lemma_offers_lookup_exists(s.drop_last(), k);
            let i = choose|i: int|
                0 <= i < s.drop_last().len() && (#[trigger] s.drop_last()[i]).0 == k;
            assert(s[i].0 == s[s.len() - 1].0);
            assert(false);
        }
    }
}

/// The domain of a table after applying offers: the starting domain
/// united with the offered keys.
pub proof fn lemma_apply_offers_dom(m: Map<KeyView, HostBinding>, s: Seq<OfferView>)
    ensures
        apply_offers(m, s).dom() == m.dom().union(offer_keys(s)),
{
    lemma_offer_keys(s);
    assert forall|k: KeyView| #[trigger] apply_offers(m, s).dom().contains(k) == m.dom().union(
        offer_keys(s),
    ).contains(k) by {
        lemma_apply_offers_lookup(m, s, k);
    }
    assert(apply_offers(m, s).dom() =~= m.dom().union(offer_keys(s)));
}

/// Counting a union built by distinct offers: the union's size plus the
/// overlap's size equals the sum of the two sizes.
proof fn lemma_union_overlap_count(a: Set<KeyView>, s: Seq<OfferView>)
    requires
        a.finite(),
        distinct_keys(s),
    ensures
        a.union(offer_keys(s)).len() + a.intersect(offer_keys(s)).len() == a.len() + s.len(),
    decreases s.len(),
{
    broadcast use vstd::set::group_set_axioms;

    if s.len() == 0 {
        assert(a.union(offer_keys(s)) =~= a);
        assert(a.intersect(offer_keys(s)) =~= Set::empty());
    } else {
        let s0 = s.drop_last();
        let k = s.last().0;
        lemma_distinct_drop_last(s);
        lemma_union_overlap_count(a, s0);
        lemma_offer_keys(s0);
        if offer_keys(s0).contains(k) {
            lemma_offers_lookup_exists(s0, k);
            let i = choose|i: int| 0 <= i < s0.len() && (#[trigger] s0[i]).0 == k;
            assert(s[i].0 == s[s.len() - 1].0);
            assert(false);
        }
        if a.contains(k) {
            assert(a.union(offer_keys(s)) =~= a.union(offer_keys(s0)));
            assert(a.intersect(offer_keys(s)) =~= a.intersect(offer_keys(s0)).insert(k));
            assert(!a.intersect(offer_keys(s0)).contains(k));
        } else {
            assert(a.union(offer_keys(s)) =~= a.union(offer_keys(s0)).insert(k));
            assert(a.intersect(offer_keys(s)) =~= a.intersect(offer_keys(s0)));
            assert(!a.union(offer_keys(s0)).contains(k));
        }
    }
}

/// The size of a merged table: built from two providers that offer `m`
/// and `n` bindings under distinct keys, of which some overlap, it has
/// `m + n - overlap` entries (stated without subtraction).
pub proof fn lemma_merged_table_size(p1: Seq<OfferView>, p2: Seq<OfferView>)
    requires
        distinct_keys(p1),
        distinct_keys(p2),
    ensures
        apply_offers(table_of(p1), p2).dom().finite(),
        apply_offers(table_of(p1), p2).dom().len() + offer_keys(p1).intersect(
            offer_keys(p2),
        ).len() == p1.len() + p2.len(),
{
    broadcast use vstd::set::group_set_axioms;

    lemma_offer_keys(p1);
    lemma_offer_keys(p2);
    lemma_offer_keys_len(p1);
    lemma_apply_offers_dom(Map::empty(), p1);
    assert(Map::<KeyView, HostBinding>::empty().dom() =~= Set::empty());
    assert(table_of(p1).dom() =~= offer_keys(p1));
    lemma_apply_offers_dom(table_of(p1), p2);
    lemma_union_overlap_count(offer_keys(p1), p2);
}

} // verus!
