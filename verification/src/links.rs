//! A set of links, kept to hand out each link only once.
use vstd::prelude::*;

verus! {

/// The links seen so far.
pub struct LinkSet {
    items: Vec<String>,
}

impl View for LinkSet {
    type V = Set<Seq<char>>;

    closed spec fn view(&self) -> Set<Seq<char>> {
        Set::new(|s: Seq<char>| exists|i: int| 0 <= i < self.items@.len() && #[trigger] self.items@[i]@ == s)
    }
}

impl LinkSet {
    /// An empty set.
    pub fn new() -> (r: LinkSet)
        ensures
            r@ == Set::<Seq<char>>::empty(),
    {
        let r = LinkSet { items: Vec::new() };
        assert(r@ =~= Set::<Seq<char>>::empty());
        r
    }

    /// Whether `link` was seen.
    pub fn contains(&self, link: &str) -> (r: bool)
        ensures
            r == self@.contains(link@),
    {
        let target = link.to_owned();
        let mut i: usize = 0;
        while i < self.items.len()
            invariant
                i <= self.items@.len(),
                target@ == link@,
                forall|k: int| 0 <= k < i ==> #[trigger] self.items@[k]@ != link@,
            decreases self.items.len() - i,
        {
            if self.items[i] == target {
                assert(self.items@[i as int]@ == link@);
                return true;
            }
            i += 1;
        }
        false
    }

    /// Adds `link`; `true` when it was not there before, as `HashSet::insert` answers.
    pub fn insert(&mut self, link: &str) -> (r: bool)
        ensures
            r == !old(self)@.contains(link@),
            final(self)@ == old(self)@.insert(link@),
    {
        if self.contains(link) {
            assert(self@ =~= self@.insert(link@));
            false
        } else {
            let ghost before = self.items@;
            self.items.push(link.to_owned());
            assert forall|s: Seq<char>| #[trigger] self@.contains(s) == old(self)@.insert(link@).contains(s) by {
                if old(self)@.contains(s) {
                    let i = choose|i: int| 0 <= i < before.len() && #[trigger] before[i]@ == s;
                    assert(self.items@[i] == before[i]);
                }
                if s == link@ {
                    assert(self.items@[before.len() as int]@ == s);
                }
                if self@.contains(s) {
                    let i = choose|i: int| 0 <= i < self.items@.len() && #[trigger] self.items@[i]@ == s;
                    if i < before.len() {
                        assert(before[i] == self.items@[i]);
                    }
                }
            }
            assert(self@ =~= old(self)@.insert(link@));
            true
        }
    }

    /// Forgets every link.
    pub fn clear(&mut self)
        ensures
            final(self)@ == Set::<Seq<char>>::empty(),
    {
        self.items = Vec::new();
        assert(self@ =~= Set::<Seq<char>>::empty());
    }
}

/// Adds `link` to `links` unless `seen` has it, and records it in `seen`.
pub fn add_new_link(links: &mut Vec<String>, seen: &mut LinkSet, link: String) -> (r: bool)
    ensures
        r == !old(seen)@.contains(link@),
        final(seen)@ == old(seen)@.insert(link@),
        final(links).deep_view() == (if r { old(links).deep_view().push(link@) } else { old(links).deep_view() }),
{
    if seen.insert(link.as_str()) {
        let ghost before = links.deep_view();
        links.push(link);
        assert(links.deep_view() =~= before.push(link@));
        true
    } else {
        false
    }
}

/// Links handed out through `add_new_link` stay distinct: a list without
/// repeats whose links are all recorded as seen keeps both properties.
pub proof fn law_links_stay_distinct(links: Seq<Seq<char>>, seen: Set<Seq<char>>, link: Seq<char>)
    requires
        links.no_duplicates(),
        forall|i: int| 0 <= i < links.len() ==> seen.contains(#[trigger] links[i]),
    ensures
        ({
            let added = !seen.contains(link);
            let after = if added { links.push(link) } else { links };
            &&& after.no_duplicates()
            &&& forall|i: int| 0 <= i < after.len() ==> seen.insert(link).contains(#[trigger] after[i])
        }),
{
    if !seen.contains(link) {
        let after = links.push(link);
        assert forall|i: int, j: int| 0 <= i < after.len() && 0 <= j < after.len() && i != j implies after[i] != after[j] by {
            if i < links.len() && j < links.len() {
                assert(after[i] == links[i] && after[j] == links[j]);
            } else if i < links.len() {
                assert(seen.contains(links[i]));
            } else {
                assert(seen.contains(links[j]));
            }
        }
    }
}

} // verus!
