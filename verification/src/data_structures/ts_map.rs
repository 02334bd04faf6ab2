use crate::data_structures::time_series::{SeriesView, TimeSeries};
use vstd::prelude::*;

verus! {

/// The lower-case form of a string, as `str::to_lowercase` gives it.
pub uninterp spec fn lowercase_of(s: Seq<char>) -> Seq<char>;

/// `str::to_lowercase`: the lower-case form of `s`. It depends on the characters of `s` and on
/// nothing else; which characters it holds is not stated here.
#[verifier::external_body]
fn to_lowercase(s: &str) -> (lower: String)
    ensures
        lower@ == lowercase_of(s@),
{
    s.to_lowercase()
}

/// The form of a name under which the registry keeps and finds its series.
pub fn fold_case(name: &str) -> (folded: String)
    ensures
        folded@ == lowercase_of(name@),
{
    to_lowercase(name)
}

/// A name that is compared without regard to the case of its letters: it holds the lower-case
/// form only. The name as it was given stays with the series.
#[derive(Debug)]
struct CaseInsensitiveString(String);

impl PartialEq for CaseInsensitiveString {
    fn eq(&self, other: &Self) -> (r: bool) {
        self.0 == other.0
    }
}

impl vstd::std_specs::cmp::PartialEqSpecImpl for CaseInsensitiveString {
    open spec fn obeys_eq_spec() -> bool {
        true
    }

    closed spec fn eq_spec(&self, other: &Self) -> bool {
        self.0@ == other.0@
    }
}

/// The series of a registry, each under its name.
pub open spec fn series_by_key(keys: Seq<Seq<char>>, series: Seq<TimeSeries>) -> Map<
    Seq<char>,
    SeriesView,
> {
    Map::new(|k: Seq<char>| keys.contains(k), |k: Seq<char>| series[keys.index_of(k)]@)
}

/// Names that differ only in the case of their letters are one name. A series registered
/// under `a` is found under `b`; a series then registered under `b` takes its place, is found
/// under `a`, and nothing else in the registry changes.
pub proof fn lemma_names_ignore_case(
    registry: Map<Seq<char>, SeriesView>,
    a: Seq<char>,
    b: Seq<char>,
    first: SeriesView,
    second: SeriesView,
)
    requires
        lowercase_of(a) == lowercase_of(b),
    ensures
        registry.insert(lowercase_of(a), first).contains_key(lowercase_of(b)),
        registry.insert(lowercase_of(a), first)[lowercase_of(b)] == first,
        registry.insert(lowercase_of(a), first).insert(lowercase_of(b), second)[lowercase_of(a)]
            == second,
        registry.insert(lowercase_of(a), first).insert(lowercase_of(b), second) == registry.insert(
            lowercase_of(a),
            second,
        ),
{
    assert(registry.insert(lowercase_of(a), first).insert(lowercase_of(b), second)
        =~= registry.insert(lowercase_of(a), second));
}

/// Series under different names do not touch each other: what becomes of one leaves the other
/// as it is, so changes to the two come to the same in either order.
pub proof fn lemma_series_are_independent(
    registry: Map<Seq<char>, SeriesView>,
    a: Seq<char>,
    b: Seq<char>,
    series_a: SeriesView,
    series_b: SeriesView,
)
    requires
        lowercase_of(a) != lowercase_of(b),
    ensures
        registry.insert(lowercase_of(a), series_a).insert(lowercase_of(b), series_b)[lowercase_of(
            a,
        )] == series_a,
        registry.insert(lowercase_of(a), series_a).insert(lowercase_of(b), series_b)
            == registry.insert(lowercase_of(b), series_b).insert(lowercase_of(a), series_a),
{
    assert(registry.insert(lowercase_of(a), series_a).insert(lowercase_of(b), series_b)
        =~= registry.insert(lowercase_of(b), series_b).insert(lowercase_of(a), series_a));
}

/// In a sequence without duplicates an item is found where it stands.
proof fn lemma_index_of(keys: Seq<Seq<char>>, i: int)
    requires
        keys.no_duplicates(),
        0 <= i < keys.len(),
    ensures
        keys.contains(keys[i]),
        keys.index_of(keys[i]) == i,
{
}

/// Replacing the series at the place of a name changes the map at that name only.
proof fn lemma_replaced(keys: Seq<Seq<char>>, series: Seq<TimeSeries>, i: int, ts: TimeSeries)
    requires
        keys.no_duplicates(),
        keys.len() == series.len(),
        0 <= i < keys.len(),
    ensures
        series_by_key(keys, series.update(i, ts)) == series_by_key(keys, series).insert(
            keys[i],
            ts@,
        ),
{
    let a = series_by_key(keys, series.update(i, ts));
    let b = series_by_key(keys, series).insert(keys[i], ts@);
    lemma_index_of(keys, i);
    assert forall|k: Seq<char>| a.dom().contains(k) implies #[trigger] a[k] == b[k] by {
        let j = keys.index_of(k);
        lemma_index_of(keys, j);
    }
    assert(a =~= b);
}

/// A new name with its series extends the map by that name.
proof fn lemma_added(keys: Seq<Seq<char>>, series: Seq<TimeSeries>, k: Seq<char>, ts: TimeSeries)
    requires
        keys.no_duplicates(),
        keys.len() == series.len(),
        !keys.contains(k),
    ensures
        keys.push(k).no_duplicates(),
        series_by_key(keys.push(k), series.push(ts)) == series_by_key(keys, series).insert(k, ts@),
{
    let a = series_by_key(keys.push(k), series.push(ts));
    let b = series_by_key(keys, series).insert(k, ts@);
    assert(keys.push(k).no_duplicates()) by {
        assert forall|i: int, j: int|
            0 <= i < keys.push(k).len() && 0 <= j < keys.push(k).len() && i != j implies keys.push(
            k,
        )[i] != keys.push(k)[j] by {
            if i < keys.len() {
                assert(keys.contains(keys[i]));
            }
            if j < keys.len() {
                assert(keys.contains(keys[j]));
            }
        }
    }
    assert forall|x: Seq<char>| a.dom().contains(x) <==> b.dom().contains(x) by {
        if keys.push(k).contains(x) {
            let j = keys.push(k).index_of(x);
            if j < keys.len() {
                assert(keys[j] == x);
            }
        }
        if keys.contains(x) {
            let j = keys.index_of(x);
            assert(keys.push(k)[j] == x);
        }
        if x == k {
            assert(keys.push(k)[keys.len() as int] == k);
        }
    }
    assert forall|x: Seq<char>| a.dom().contains(x) implies #[trigger] a[x] == b[x] by {
        let j = keys.push(k).index_of(x);
        lemma_index_of(keys.push(k), j);
        if j < keys.len() {
            lemma_index_of(keys, j);
        }
    }
    assert(a =~= b);
}

/// A registry of series by name. Names that differ only in the case of their letters are one
/// name.
pub struct TSMap {
    keys: Vec<CaseInsensitiveString>,
    series: Vec<TimeSeries>,
}

impl View for TSMap {
    type V = Map<Seq<char>, SeriesView>;

    /// The series, each under the lower-case form of the name it was registered with.
    open spec fn view(&self) -> Map<Seq<char>, SeriesView> {
        series_by_key(self.keys(), self.series())
    }
}

impl TSMap {
    /// The names under which the series are kept, in the order of their first registration.
    pub closed spec fn keys(&self) -> Seq<Seq<char>> {
        Seq::new(self.keys.len() as nat, |i: int| self.keys[i].0@)
    }

    /// The registered series, each at the place of its name in `keys`.
    pub closed spec fn series(&self) -> Seq<TimeSeries> {
        self.series@
    }

    /// Every name has its series, and no name occurs twice.
    pub open spec fn wf(&self) -> bool {
        &&& self.keys().len() == self.series().len()
        &&& self.keys().no_duplicates()
    }

    /// An empty registry.
    pub fn new() -> (m: Self)
        ensures
            m.wf(),
            m@ == Map::<Seq<char>, SeriesView>::empty(),
            m.keys() == Seq::<Seq<char>>::empty(),
            m.series() == Seq::<TimeSeries>::empty(),
    {
        let m = TSMap { keys: Vec::new(), series: Vec::new() };
        assert(m.keys() =~= Seq::<Seq<char>>::empty());
        assert(m@ =~= Map::<Seq<char>, SeriesView>::empty());
        m
    }

    /// Where `key` stands among the names.
    fn position(&self, key: &CaseInsensitiveString) -> (r: Option<usize>)
        ensures
            match r {
                Some(i) => i < self.keys().len() && self.keys()[i as int] == key.0@,
                None => !self.keys().contains(key.0@),
            },
    {
        let mut i: usize = 0;
        while i < self.keys.len()
            invariant
                i <= self.keys.len(),
                forall|j: int| 0 <= j < i ==> self.keys()[j] != key.0@,
            decreases self.keys.len() - i,
        {
            if self.keys[i] == *key {
                return Some(i);
            }
            i += 1;
        }
        None
    }

    /// Registers a new series that holds its first sample, under `key`. A series already
    /// registered under that name, in whatever case, is replaced and its samples are lost.
    pub fn insert(&mut self, key: String, initial_timestamp: u64, initial_value: u64)
        requires
            old(self).wf(),
        ensures
            final(self).wf(),
            final(self)@ == old(self)@.insert(
                lowercase_of(key@),
                SeriesView::start(key@, initial_timestamp, initial_value),
            ),
    {
        let folded = fold_case(key.as_str());
        let ts = TimeSeries::new(key, initial_timestamp, initial_value);
        self.insert_folded(folded, ts);
    }

    /// Keeps `series` under the name `folded`, as it is given. A series already kept under
    /// that very name is replaced, at its place; another name comes last.
    pub fn insert_folded(&mut self, folded: String, series: TimeSeries)
        requires
            old(self).wf(),
        ensures
            final(self).wf(),
            final(self)@ == old(self)@.insert(folded@, series@),
            old(self).keys().contains(folded@) ==> {
                &&& final(self).keys() == old(self).keys()
                &&& final(self).series() == old(self).series().update(
                    old(self).keys().index_of(folded@),
                    series,
                )
            },
            !old(self).keys().contains(folded@) ==> {
                &&& final(self).keys() == old(self).keys().push(folded@)
                &&& final(self).series() == old(self).series().push(series)
            },
    {
        let ci_key = CaseInsensitiveString(folded);
        match self.position(&ci_key) {
            Some(i) => {
                self.series.set(i, series);
                proof {
                    lemma_index_of(old(self).keys(), i as int);
                    lemma_replaced(old(self).keys(), old(self).series(), i as int, series);
                    assert(self.keys() =~= old(self).keys());
                }
            },
            None => {
                self.keys.push(ci_key);
                self.series.push(series);
                proof {
                    assert(self.keys() =~= old(self).keys().push(folded@));
                    lemma_added(old(self).keys(), old(self).series(), folded@, series);
                }
            },
        }
    }

    /// The series registered under `key`, in whatever case.
    pub fn get(&self, key: &str) -> (r: Option<&TimeSeries>)
        requires
            self.wf(),
        ensures
            match r {
                Some(s) => self@.contains_key(lowercase_of(key@)) && s@ == self@[lowercase_of(
                    key@,
                )],
                None => !self@.contains_key(lowercase_of(key@)),
            },
    {
        let folded = fold_case(key);
        self.get_folded(folded.as_str())
    }

    /// The series kept under the name `folded`, as it is given.
    pub fn get_folded(&self, folded: &str) -> (r: Option<&TimeSeries>)
        requires
            self.wf(),
        ensures
            match r {
                Some(s) => self@.contains_key(folded@) && s@ == self@[folded@] && *s
                    == self.series()[self.keys().index_of(folded@)],
                None => !self@.contains_key(folded@),
            },
    {
        let ci_key = CaseInsensitiveString(folded.to_string());
        match self.position(&ci_key) {
            Some(i) => {
                proof {
                    lemma_index_of(self.keys(), i as int);
                }
                Some(&self.series[i])
            },
            None => None,
        }
    }

    /// The series registered under `key`, in whatever case, to append to. Whatever becomes of
    /// it, the other series stay as they are.
    pub fn get_mut(&mut self, key: &str) -> (r: Option<&mut TimeSeries>)
        requires
            old(self).wf(),
        ensures
            final(self).wf(),
            match r {
                Some(s) => {
                    &&& old(self)@.contains_key(lowercase_of(key@))
                    &&& s@ == old(self)@[lowercase_of(key@)]
                    &&& final(self)@ == old(self)@.insert(lowercase_of(key@), final(s)@)
                },
                None => !old(self)@.contains_key(lowercase_of(key@)) && final(self)@ == old(
                    self,
                )@,
            },
    {
        let folded = fold_case(key);
        self.get_mut_folded(folded.as_str())
    }

    /// The series kept under the name `folded`, as it is given, to append to.
    pub fn get_mut_folded(&mut self, folded: &str) -> (r: Option<&mut TimeSeries>)
        requires
            old(self).wf(),
        ensures
            final(self).wf(),
            final(self).keys() == old(self).keys(),
            match r {
                Some(s) => {
                    &&& old(self)@.contains_key(folded@)
                    &&& s@ == old(self)@[folded@]
                    &&& final(self)@ == old(self)@.insert(folded@, final(s)@)
                    &&& final(self).series() == old(self).series().update(
                        old(self).keys().index_of(folded@),
                        *final(s),
                    )
                },
                None => !old(self)@.contains_key(folded@) && final(self)@ == old(self)@
                    && final(self).series() == old(self).series(),
            },
    {
        let ci_key = CaseInsensitiveString(folded.to_string());
        match self.position(&ci_key) {
            Some(i) => {
                proof {
                    lemma_index_of(self.keys(), i as int);
                }
                Some(&mut self.series[i])
            },
            None => None,
        }
    }

    /// All registered series, in the order of the first registration of their names.
    pub fn scan(&self) -> (all: Vec<&TimeSeries>)
        ensures
            all@.len() == self.series().len(),
            forall|i: int| 0 <= i < all@.len() ==> *all@[i] == self.series()[i],
    {
        let mut all: Vec<&TimeSeries> = Vec::new();
        let mut i: usize = 0;
        while i < self.series.len()
            invariant
                i <= self.series.len(),
                all@.len() == i,
                forall|j: int| 0 <= j < i ==> *all@[j] == self.series()[j],
            decreases self.series.len() - i,
        {
            all.push(&self.series[i]);
            i += 1;
        }
        all
    }
}

} // verus!
