//! Card facts the bots look up by slug.
//!
//! Two facts matter to the bots:
//! 1. `is_ex(slug)`: the card is a rule-box Pokémon (worth two prizes or more);
//! 2. `attack_index(slug, name)`: the index of an attack, in the order of the attacks'
//!    `position` in the card data.
//!
//! The prize value comes from the card's meta tags (`mega` gives 3, `ex` gives 2,
//! anything else 1); `is_ex` is `prize_value >= 2`.

use vstd::prelude::*;

use crate::util::{first_where, lemma_first_at, lemma_first_where, str_eq};

verus! {

/// One card as read from the card data: only what the bots need.
#[derive(Debug, Clone)]
pub struct YamlCard {
    pub slug: String,
    pub meta_tags: Vec<String>,
    pub attacks: Vec<YamlAttack>,
}

/// One attack entry of a card.
#[derive(Debug, Clone)]
pub struct YamlAttack {
    pub position: u8,
    pub name: YamlName,
}

/// The names of an attack; only the Japanese name is used.
#[derive(Debug, Clone, Default)]
pub struct YamlName {
    pub ja: Option<String>,
}

/// The facts kept for one card.
#[derive(Debug, Clone)]
pub struct CardFact {
    pub prize_value: u8,
    /// Attack names in ascending `position` (the engine's attack index order).
    pub attack_names: Vec<String>,
}

/// A card fact as a mathematical value: prize value and attack names.
pub struct FactView {
    pub prize_value: u8,
    pub attack_names: Seq<Seq<char>>,
}

/// The names of a vector of strings.
pub open spec fn names_view(v: Seq<String>) -> Seq<Seq<char>> {
    v.map_values(|s: String| s@)
}

/// The names of a slice of string slices.
pub open spec fn strs_view(v: Seq<&str>) -> Seq<Seq<char>> {
    v.map_values(|s: &str| s@)
}

impl CardFact {
    pub open spec fn view(self) -> FactView {
        FactView { prize_value: self.prize_value, attack_names: names_view(self.attack_names@) }
    }

    /// A copy of this fact.
    pub fn copy_fact(&self) -> (r: CardFact)
        ensures
            r.view() == self.view(),
    {
        let mut names: Vec<String> = Vec::new();
        let mut i: usize = 0;
        while i < self.attack_names.len()
            invariant
                i <= self.attack_names@.len(),
                names@.len() == i,
                forall|j: int| 0 <= j < i ==> names@[j]@ == self.attack_names@[j]@,
            decreases self.attack_names.len() - i,
        {
            names.push(self.attack_names[i].clone());
            i = i + 1;
        }
        assert(names_view(names@) =~= names_view(self.attack_names@));
        CardFact { prize_value: self.prize_value, attack_names: names }
    }
}

/// Two entry lists with the same slugs and facts, position by position, describe the same
/// table.
pub proof fn lemma_entries_map_same(a: Seq<(String, CardFact)>, b: Seq<(String, CardFact)>)
    requires
        a.len() == b.len(),
        forall|i: int| 0 <= i < a.len() ==> a[i].0@ == b[i].0@ && a[i].1.view() == b[i].1.view(),
    ensures
        entries_map(a) == entries_map(b),
    decreases a.len(),
{
    if a.len() > 0 {
        lemma_entries_map_same(a.drop_last(), b.drop_last());
        assert(a.last().0@ == b.last().0@);
    }
}

/// Lookup table of card facts keyed by slug.
#[derive(Debug)]
pub struct CardFacts {
    /// Entries in insertion order; no slug occurs twice.
    by_slug: Vec<(String, CardFact)>,
}

/// The table that a list of entries describes (a later entry for a slug wins).
pub open spec fn entries_map(s: Seq<(String, CardFact)>) -> Map<Seq<char>, FactView>
    decreases s.len(),
{
    if s.len() == 0 {
        Map::empty()
    } else {
        entries_map(s.drop_last()).insert(s.last().0@, s.last().1.view())
    }
}

/// No slug occurs twice among the entries.
pub open spec fn keys_distinct(s: Seq<(String, CardFact)>) -> bool {
    forall|i: int, j: int| 0 <= i < j < s.len() ==> s[i].0@ != s[j].0@
}

/// With distinct slugs, the table maps each entry's slug to that entry's fact, and holds
/// nothing else.
pub proof fn lemma_entries_map(s: Seq<(String, CardFact)>)
    requires
        keys_distinct(s),
    ensures
        forall|i: int| 0 <= i < s.len() ==> #[trigger] entries_map(s).contains_key(s[i].0@)
            && entries_map(s)[s[i].0@] == s[i].1.view(),
        forall|k: Seq<char>| #[trigger]
            entries_map(s).contains_key(k) ==> exists|i: int| 0 <= i < s.len() && s[i].0@ == k,
    decreases s.len(),
{
    if s.len() > 0 {
        let t = s.drop_last();
        assert(keys_distinct(t));
        lemma_entries_map(t);
        assert forall|i: int| 0 <= i < s.len() implies #[trigger] entries_map(s).contains_key(
            s[i].0@,
        ) && entries_map(s)[s[i].0@] == s[i].1.view() by {
            if i < s.len() - 1 {
                assert(t[i] == s[i]);
                assert(s[i].0@ != s[s.len() - 1].0@);
                assert(entries_map(t).contains_key(t[i].0@));
            }
        }
        assert forall|k: Seq<char>| #[trigger]
            entries_map(s).contains_key(k) implies exists|i: int| 0 <= i < s.len() && s[i].0@ == k by {
            if k != s.last().0@ {
                assert(entries_map(t).contains_key(k));
                let i = choose|i: int| 0 <= i < t.len() && t[i].0@ == k;
                assert(s[i] == t[i]);
            } else {
                assert(s[s.len() - 1].0@ == k);
            }
        }
    }
}

/// Replacing the fact of an entry updates the table at that entry's slug.
pub proof fn lemma_entries_map_update(s: Seq<(String, CardFact)>, k: int, e: (String, CardFact))
    requires
        keys_distinct(s),
        0 <= k < s.len(),
        e.0@ == s[k].0@,
    ensures
        keys_distinct(s.update(k, e)),
        entries_map(s.update(k, e)) == entries_map(s).insert(e.0@, e.1.view()),
{
    let u = s.update(k, e);
    assert(keys_distinct(u)) by {
        assert forall|i: int, j: int| 0 <= i < j < u.len() implies u[i].0@ != u[j].0@ by {
            assert(s[i].0@ != s[j].0@);
        }
    }
    lemma_entries_map(s);
    lemma_entries_map(u);
    let m1 = entries_map(u);
    let m2 = entries_map(s).insert(e.0@, e.1.view());
    assert forall|key: Seq<char>| m1.contains_key(key) <==> m2.contains_key(key) by {
        if m1.contains_key(key) {
            let i = choose|i: int| 0 <= i < u.len() && u[i].0@ == key;
            if i != k {
                assert(entries_map(s).contains_key(s[i].0@));
            }
        }
        if m2.contains_key(key) && key != e.0@ {
            let i = choose|i: int| 0 <= i < s.len() && s[i].0@ == key;
            assert(m1.contains_key(u[i].0@));
        }
        if key == e.0@ {
            assert(m1.contains_key(u[k].0@));
        }
    }
    assert forall|key: Seq<char>| #[trigger] m1.contains_key(key) implies m1[key] == m2[key] by {
        let i = choose|i: int| 0 <= i < u.len() && u[i].0@ == key;
        if i != k {
            assert(entries_map(s)[s[i].0@] == s[i].1.view());
        }
    }
    assert(m1 =~= m2);
}

/// Prize value from meta tags: `mega` gives 3, `ex` gives 2, anything else 1.
pub open spec fn prize_value_spec(tags: Seq<Seq<char>>) -> u8 {
    if tags.contains("mega"@) {
        3
    } else if tags.contains("ex"@) {
        2
    } else {
        1
    }
}

/// Whether one of the tags equals `lit`.
fn tags_contain(tags: &[String], lit: &str) -> (r: bool)
    ensures
        r == names_view(tags@).contains(lit@),
{
    let mut i: usize = 0;
    while i < tags.len()
        invariant
            i <= tags@.len(),
            forall|j: int| 0 <= j < i ==> tags@[j]@ != lit@,
        decreases tags.len() - i,
    {
        if str_eq(tags[i].as_str(), lit) {
            assert(names_view(tags@)[i as int] == lit@);
            return true;
        }
        i = i + 1;
    }
    proof {
        if names_view(tags@).contains(lit@) {
            let j = choose|j: int| 0 <= j < names_view(tags@).len() && names_view(tags@)[j] == lit@;
            assert(tags@[j]@ == lit@);
        }
    }
    false
}

/// Prize value of a card from its meta tags (`mega` 3, `ex` 2, otherwise 1).
pub fn prize_value_from_meta(tags: &[String]) -> (r: u8)
    ensures
        r == prize_value_spec(names_view(tags@)),
{
    if tags_contain(tags, "mega") {
        3
    } else if tags_contain(tags, "ex") {
        2
    } else {
        1
    }
}

/// Attack names at `position == p`, in input order.
pub open spec fn names_at(attacks: Seq<YamlAttack>, p: int) -> Seq<Seq<char>>
    decreases attacks.len(),
{
    if attacks.len() == 0 {
        Seq::empty()
    } else {
        names_at(attacks.drop_last(), p) + if attacks.last().position == p
            && attacks.last().name.ja is Some {
            seq![attacks.last().name.ja->0@]
        } else {
            Seq::empty()
        }
    }
}

/// The attack names of positions below `p`, grouped by ascending position and in input
/// order within a position: a stable sort by position, keeping the attacks that have a
/// Japanese name.
pub open spec fn names_sorted_below(attacks: Seq<YamlAttack>, p: int) -> Seq<Seq<char>>
    decreases p,
{
    if p <= 0 {
        Seq::empty()
    } else {
        names_sorted_below(attacks, p - 1) + names_at(attacks, p - 1)
    }
}

/// The attack names of a card in engine order.
pub open spec fn attack_names_spec(attacks: Seq<YamlAttack>) -> Seq<Seq<char>> {
    names_sorted_below(attacks, 256)
}

impl CardFact {
    /// The facts kept for a card read from the card data.
    pub fn from_yaml(card: YamlCard) -> (r: CardFact)
        ensures
            r.prize_value == prize_value_spec(names_view(card.meta_tags@)),
            names_view(r.attack_names@) == attack_names_spec(card.attacks@),
    {
        let prize_value = prize_value_from_meta(card.meta_tags.as_slice());
        let attacks = &card.attacks;
        let mut names: Vec<String> = Vec::new();
        let mut p: u16 = 0;
        while p < 256
            invariant
                p <= 256,
                names_view(names@) == names_sorted_below(attacks@, p as int),
            decreases 256 - p,
        {
            let ghost before = names_view(names@);
            let mut i: usize = 0;
            while i < attacks.len()
                invariant
                    p < 256,
                    i <= attacks@.len(),
                    names_view(names@) == before + names_at(attacks@.take(i as int), p as int),
                decreases attacks.len() - i,
            {
                proof {
                    assert(attacks@.take(i + 1).drop_last() =~= attacks@.take(i as int));
                }
                let a = &attacks[i];
                if a.position as u16 == p {
                    match &a.name.ja {
                        Some(n) => {
                            let ghost old_names = names@;
                            let nn = n.clone();
                            names.push(nn);
                            proof {
                                assert(attacks@.take(i + 1).last() == attacks@[i as int]);
                                assert(names_at(attacks@.take(i + 1), p as int) =~= names_at(
                                    attacks@.take(i as int),
                                    p as int,
                                ).push(nn@));
                                assert(names_view(names@) =~= names_view(old_names).push(nn@));
                                assert(names_view(names@) =~= before + names_at(
                                    attacks@.take(i + 1),
                                    p as int,
                                ));
                            }
                        },
                        None => {
                            assert(attacks@.take(i + 1).last() == attacks@[i as int]);
                            assert(names_view(names@) =~= before + names_at(
                                attacks@.take(i + 1),
                                p as int,
                            ));
                        },
                    }
                } else {
                    assert(attacks@.take(i + 1).last() == attacks@[i as int]);
                    assert(names_view(names@) =~= before + names_at(
                        attacks@.take(i + 1),
                        p as int,
                    ));
                }
                i = i + 1;
            }
            proof {
                assert(attacks@.take(i as int) =~= attacks@);
            }
            p = p + 1;
        }
        CardFact { prize_value, attack_names: names }
    }
}

impl CardFacts {
    /// The table: slug to facts.
    pub closed spec fn view(&self) -> Map<Seq<char>, FactView> {
        entries_map(self.by_slug@)
    }

    /// The table's internal invariant: no slug occurs twice.
    #[verifier::type_invariant]
    pub closed spec fn wf(&self) -> bool {
        keys_distinct(self.by_slug@)
    }

    /// An empty table (an unknown slug is not ex and has no attacks).
    pub fn new() -> (r: Self)
        ensures
            r@ == Map::<Seq<char>, FactView>::empty(),
    {
        CardFacts { by_slug: Vec::new() }
    }

    /// Position of the entry for `slug`, if any.
    fn position_of(&self, slug: &str) -> (r: Option<usize>)
        ensures
            r matches Some(k) ==> k < self.by_slug@.len() && self.by_slug@[k as int].0@ == slug@
                && self@.contains_key(slug@) && self@[slug@] == self.by_slug@[k as int].1.view(),
            r is None ==> !self@.contains_key(slug@),
    {
        proof {
            use_type_invariant(self);
            lemma_entries_map(self.by_slug@);
        }
        let mut i: usize = 0;
        while i < self.by_slug.len()
            invariant
                i <= self.by_slug@.len(),
                forall|j: int| 0 <= j < i ==> self.by_slug@[j].0@ != slug@,
            decreases self.by_slug.len() - i,
        {
            if str_eq(self.by_slug[i].0.as_str(), slug) {
                assert(self.by_slug@[i as int].0@ == slug@);
                assert(entries_map(self.by_slug@).contains_key(self.by_slug@[i as int].0@));
                return Some(i);
            }
            i = i + 1;
        }
        proof {
            if self@.contains_key(slug@) {
                let j = choose|j: int| 0 <= j < self.by_slug@.len() && self.by_slug@[j].0@ == slug@;
                assert(self.by_slug@[j].0@ != slug@);
            }
        }
        None
    }

    /// Whether `slug` is a rule-box Pokémon (prize value 2 or more). Unknown slugs are not.
    pub fn is_ex(&self, slug: &str) -> (r: bool)
        ensures
            r == (self@.contains_key(slug@) && self@[slug@].prize_value >= 2),
    {
        match self.position_of(slug) {
            Some(k) => self.by_slug[k].1.prize_value >= 2,
            None => false,
        }
    }

    /// Attack name to attack index (position order). `None` for an unknown slug or attack.
    pub fn attack_index(&self, slug: &str, name: &str) -> (r: Option<u8>)
        ensures
            r == attack_index_spec(self@, slug@, name@),
    {
        match self.position_of(slug) {
            Some(k) => {
                let names = &self.by_slug[k].1.attack_names;
                let ghost nv = names_view(names@);
                proof {
                    lemma_first_where(nv, eq_name(name@));
                }
                let mut i: usize = 0;
                while i < names.len()
                    invariant
                        i <= names@.len(),
                        nv == names_view(names@),
                        forall|j: int| 0 <= j < i ==> names@[j]@ != name@,
                    decreases names.len() - i,
                {
                    if str_eq(names[i].as_str(), name) {
                        proof {
                            lemma_first_where(nv, eq_name(name@));
                            assert(nv[i as int] == names@[i as int]@);
                            assert(eq_name(name@)(nv[i as int]));
                            match first_where(nv, eq_name(name@)) {
                                Some(kk) => {
                                    if kk < i {
                                        assert(nv[kk] == names@[kk]@);
                                    }
                                    assert(kk == i);
                                },
                                None => {
                                    assert(!eq_name(name@)(nv[i as int]));
                                },
                            }
                        }
                        if i <= 255 {
                            return Some(i as u8);
                        } else {
                            return None;
                        }
                    }
                    i = i + 1;
                }
                proof {
                    lemma_first_where(nv, eq_name(name@));
                    assert forall|j: int| 0 <= j < nv.len() implies !eq_name(name@)(
                        #[trigger] nv[j],
                    ) by {
                        assert(nv[j] == names@[j]@);
                    }
                }
                None
            },
            None => None,
        }
    }

    /// Registers the facts of one card (builder style); an earlier entry for the slug is
    /// replaced.
    pub fn with_card(self, slug: &str, prize_value: u8, attack_names: &[&str]) -> (r: Self)
        ensures
            r@ == self@.insert(
                slug@,
                FactView { prize_value, attack_names: strs_view(attack_names@) },
            ),
    {
        let mut names: Vec<String> = Vec::new();
        let mut i: usize = 0;
        while i < attack_names.len()
            invariant
                i <= attack_names@.len(),
                names@.len() == i,
                forall|j: int| 0 <= j < i ==> names@[j]@ == attack_names@[j]@,
            decreases attack_names.len() - i,
        {
            let owned: String = attack_names[i].to_owned();
            names.push(owned);
            i = i + 1;
        }
        proof {
            assert(names_view(names@) =~= strs_view(attack_names@));
        }
        let fact = CardFact { prize_value, attack_names: names };
        self.insert(slug.to_owned(), fact)
    }

    /// Registers `fact` under `slug`, replacing an earlier entry for the slug.
    fn insert(self, slug: String, fact: CardFact) -> (r: Self)
        ensures
            r@ == self@.insert(slug@, fact.view()),
    {
        proof {
            use_type_invariant(&self);
            lemma_entries_map(self.by_slug@);
        }
        let pos = self.position_of(slug.as_str());
        let CardFacts { by_slug: mut entries } = self;
        let ghost old_entries = entries@;
        match pos {
            Some(k) => {
                proof {
                    lemma_entries_map_update(old_entries, k as int, (slug, fact));
                }
                entries.set(k, (slug, fact));
                assert(entries@ == old_entries.update(k as int, (slug, fact)));
            },
            None => {
                entries.push((slug, fact));
                proof {
                    assert(entries@.drop_last() =~= old_entries);
                    assert forall|i: int, j: int| 0 <= i < j < entries@.len() implies entries@[i].0@
                        != entries@[j].0@ by {
                        if j == entries@.len() - 1 {
                            assert(entries_map(old_entries).contains_key(old_entries[i].0@));
                        }
                    }
                }
            },
        }
        CardFacts { by_slug: entries }
    }

    /// A copy of the table.
    pub fn duplicate(&self) -> (r: Self)
        ensures
            r@ == self@,
    {
        proof {
            use_type_invariant(self);
        }
        let mut v: Vec<(String, CardFact)> = Vec::new();
        let mut i: usize = 0;
        while i < self.by_slug.len()
            invariant
                i <= self.by_slug@.len(),
                v@.len() == i,
                forall|j: int|
                    0 <= j < i ==> #[trigger] v@[j].0@ == self.by_slug@[j].0@ && v@[j].1.view()
                        == self.by_slug@[j].1.view(),
            decreases self.by_slug.len() - i,
        {
            let e = &self.by_slug[i];
            v.push((e.0.clone(), e.1.copy_fact()));
            i = i + 1;
        }
        proof {
            lemma_entries_map_same(v@, self.by_slug@);
            assert forall|a: int, b: int| 0 <= a < b < v@.len() implies v@[a].0@ != v@[b].0@ by {
                assert(v@[a].0@ == self.by_slug@[a].0@);
                assert(v@[b].0@ == self.by_slug@[b].0@);
            }
        }
        CardFacts { by_slug: v }
    }

    /// The table of a list of cards read from the card data; a later card with the same
    /// slug replaces an earlier one.
    pub fn from_cards(cards: Vec<YamlCard>) -> (r: Self)
        ensures
            r@ == cards_map(cards@),
    {
        let mut facts = CardFacts::new();
        let mut rest = cards;
        let ghost all = rest@;
        let mut i: usize = 0;
        let n = rest.len();
        while i < n
            invariant
                n == all.len(),
                i <= n,
                facts@ == cards_map(all.take(i as int)),
                rest@ == all.skip(i as int),
            decreases n - i,
        {
            let card = rest.remove(0);
            proof {
                assert(all.take(i + 1).drop_last() =~= all.take(i as int));
                assert(rest@ =~= all.skip(i + 1));
            }
            let slug = card.slug.clone();
            let fact = CardFact::from_yaml(card);
            facts = facts.insert(slug, fact);
            i = i + 1;
        }
        proof {
            assert(all.take(i as int) =~= all);
        }
        facts
    }
}

/// The table that a list of cards describes (a later card for a slug wins).
pub open spec fn cards_map(cards: Seq<YamlCard>) -> Map<Seq<char>, FactView>
    decreases cards.len(),
{
    if cards.len() == 0 {
        Map::empty()
    } else {
        cards_map(cards.drop_last()).insert(
            cards.last().slug@,
            FactView {
                prize_value: prize_value_spec(names_view(cards.last().meta_tags@)),
                attack_names: attack_names_spec(cards.last().attacks@),
            },
        )
    }
}

/// Equality with `name`, as a predicate.
pub open spec fn eq_name(name: Seq<char>) -> spec_fn(Seq<char>) -> bool {
    |n: Seq<char>| n == name
}

/// Index of attack `name` of card `slug` in the table, when it fits in a `u8`.
pub open spec fn attack_index_spec(
    facts: Map<Seq<char>, FactView>,
    slug: Seq<char>,
    name: Seq<char>,
) -> Option<u8> {
    if !facts.contains_key(slug) {
        None
    } else {
        match first_where(facts[slug].attack_names, eq_name(name)) {
            Some(k) => if k <= 255 {
                Some(k as u8)
            } else {
                None
            },
            None => None,
        }
    }
}

} // verus!

verus! {

/// A registered card reads back: after registering `slug` with a prize value and attack
/// names, the card counts as a rule-box Pokémon exactly when the prize value is 2 or more,
/// every attack name is found at its first position (where that fits in a `u8`), and every
/// other card reads as before.
pub proof fn law_with_card_reads_back(
    facts: Map<Seq<char>, FactView>,
    slug: Seq<char>,
    prize_value: u8,
    names: Seq<Seq<char>>,
    other: Seq<char>,
    name: Seq<char>,
)
    ensures
        ({
            let t = facts.insert(slug, FactView { prize_value, attack_names: names });
            &&& (t.contains_key(slug) && t[slug].prize_value >= 2) == (prize_value >= 2)
            &&& forall|i: int|
                0 <= i < names.len() && i <= 255 && (forall|j: int|
                    0 <= j < i ==> names[j] != names[i]) ==> attack_index_spec(t, slug, #[trigger] names[i])
                    == Some(i as u8)
            &&& other != slug ==> t.contains_key(other) == facts.contains_key(other)
                && attack_index_spec(t, other, name) == attack_index_spec(facts, other, name)
        }),
{
    let t = facts.insert(slug, FactView { prize_value, attack_names: names });
    assert forall|i: int|
        0 <= i < names.len() && i <= 255 && (forall|j: int| 0 <= j < i ==> names[j] != names[i])
            implies attack_index_spec(t, slug, #[trigger] names[i]) == Some(i as u8) by {
        let f = eq_name(names[i]);
        assert(t[slug].attack_names == names);
        assert forall|j: int| 0 <= j < i implies !f(#[trigger] names[j]) by {}
        lemma_first_at(names, f, i);
    }
    if other != slug {
        assert(t.contains_key(other) == facts.contains_key(other));
        if facts.contains_key(other) {
            assert(t[other] == facts[other]);
        }
    }
}

} // verus!
