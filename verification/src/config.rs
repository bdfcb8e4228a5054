//! The mount policy: destinations that must stay empty, and sources to
//! mount at destinations of the user's choice.

use crate::path::{is_absolute, lemma_views_push, views, HostPath};
use vstd::prelude::*;

verus! {

/// A source and the absolute path under which it appears in the view.
#[derive(Debug, PartialEq, Eq)]
pub struct Mapping {
    pub source: HostPath,
    pub target: HostPath,
}

/// What a [`Mapping`] holds, as the values that contracts speak of.
pub struct MappingView {
    pub source: Seq<Seq<u8>>,
    pub target: Seq<Seq<u8>>,
}

impl View for Mapping {
    type V = MappingView;

    open spec fn view(&self) -> MappingView {
        MappingView { source: self.source@, target: self.target@ }
    }
}

impl Clone for Mapping {
    fn clone(&self) -> (copy: Mapping)
        ensures
            copy@ == self@,
    {
        Mapping { source: self.source.clone(), target: self.target.clone() }
    }
}

/// Whether some mapping of `ms` has the source `source`.
pub open spec fn has_source(ms: Seq<MappingView>, source: Seq<Seq<u8>>) -> bool {
    exists|i: int| 0 <= i < ms.len() && #[trigger] ms[i].source == source
}

/// Whether no two mappings of `ms` have the same source.
pub open spec fn distinct_sources(ms: Seq<MappingView>) -> bool {
    forall|i: int, j: int|
        0 <= i < j < ms.len() ==> #[trigger] ms[i].source != #[trigger] ms[j].source
}

/// Whether the two lists hold the same items, in whatever order and however
/// often.
pub open spec fn same_members<A>(a: Seq<A>, b: Seq<A>) -> bool {
    forall|x: A| a.contains(x) <==> b.contains(x)
}

/// Whether every item of `a` is an item of `b`.
pub open spec fn all_within<A>(a: Seq<A>, b: Seq<A>) -> bool {
    forall|i: int| 0 <= i < a.len() ==> b.contains(#[trigger] a[i])
}

/// Two lists hold the same items exactly when each holds every item of the
/// other.
pub proof fn lemma_same_members<A>(a: Seq<A>, b: Seq<A>)
    ensures
        same_members(a, b) <==> all_within(a, b) && all_within(b, a),
{
    if same_members(a, b) {
        assert forall|i: int| 0 <= i < a.len() implies b.contains(#[trigger] a[i]) by {
            assert(a.contains(a[i]));
        }
        assert forall|i: int| 0 <= i < b.len() implies a.contains(#[trigger] b[i]) by {
            assert(b.contains(b[i]));
        }
    }
    if all_within(a, b) && all_within(b, a) {
        assert forall|x: A| a.contains(x) <==> b.contains(x) by {
            if a.contains(x) {
                let i = choose|i: int| 0 <= i < a.len() && a[i] == x;
                assert(b.contains(a[i]));
            }
            if b.contains(x) {
                let i = choose|i: int| 0 <= i < b.len() && b[i] == x;
                assert(a.contains(b[i]));
            }
        }
    }
}

/// Whether the mapping is one of the list.
fn holds_mapping(list: &Vec<Mapping>, m: &Mapping) -> (yes: bool)
    ensures
        yes == views(list@).contains(m@),
{
    let mut i: usize = 0;
    while i < list.len()
        invariant
            i <= list.len(),
            forall|j: int| 0 <= j < i ==> views(list@)[j] != m@,
        decreases list.len() - i,
    {
        if list[i].source.same(&m.source) && list[i].target.same(&m.target) {
            assert(views(list@)[i as int] == m@);
            return true;
        }
        i += 1;
    }
    false
}

/// Whether every mapping of `a` is one of `b`.
fn mappings_within(a: &Vec<Mapping>, b: &Vec<Mapping>) -> (yes: bool)
    ensures
        yes == all_within(views(a@), views(b@)),
{
    let mut i: usize = 0;
    while i < a.len()
        invariant
            i <= a.len(),
            forall|j: int| 0 <= j < i ==> views(b@).contains(#[trigger] views(a@)[j]),
        decreases a.len() - i,
    {
        if !holds_mapping(b, &a[i]) {
            assert(!views(b@).contains(views(a@)[i as int]));
            return false;
        }
        i += 1;
    }
    true
}

/// Whether the two lists hold the same mappings, in whatever order.
fn same_mappings(a: &Vec<Mapping>, b: &Vec<Mapping>) -> (yes: bool)
    ensures
        yes == same_members(views(a@), views(b@)),
{
    proof {
        lemma_same_members(views(a@), views(b@));
    }
    mappings_within(a, b) && mappings_within(b, a)
}

/// The destinations that must not show anything of the host. No path occurs
/// twice.
#[derive(Debug)]
pub struct ExcludePaths {
    paths: Vec<HostPath>,
}

impl View for ExcludePaths {
    type V = Seq<Seq<Seq<u8>>>;

    closed spec fn view(&self) -> Seq<Seq<Seq<u8>>> {
        views(self.paths@)
    }
}

impl Clone for ExcludePaths {
    fn clone(&self) -> (copy: ExcludePaths)
        ensures
            copy@ == self@,
    {
        let mut paths: Vec<HostPath> = Vec::new();
        let mut i: usize = 0;
        while i < self.paths.len()
            invariant
                i <= self.paths.len(),
                views(paths@) == self@.take(i as int),
            decreases self.paths.len() - i,
        {
            let path = self.paths[i].clone();
            proof {
                lemma_views_push(paths@, path);
                assert(self@.take(i + 1) =~= self@.take(i as int).push(path@));
            }
            paths.push(path);
            i += 1;
        }
        assert(self@.take(self.paths.len() as int) =~= self@);
        ExcludePaths { paths }
    }
}

impl ExcludePaths {
    /// No path occurs twice.
    pub open spec fn well_formed(&self) -> bool {
        self@.no_duplicates()
    }

    /// No destination.
    pub fn new() -> (set: ExcludePaths)
        ensures
            set@ == Seq::<Seq<Seq<u8>>>::empty(),
            set.well_formed(),
    {
        let set = ExcludePaths { paths: Vec::new() };
        assert(set@ =~= Seq::<Seq<Seq<u8>>>::empty());
        set
    }

    /// The number of destinations.
    pub fn len(&self) -> (n: usize)
        ensures
            n == self@.len(),
    {
        self.paths.len()
    }

    /// The destination at place `index`.
    pub fn get(&self, index: usize) -> (p: &HostPath)
        requires
            index < self@.len(),
        ensures
            p@ == self@[index as int],
    {
        &self.paths[index]
    }

    /// Whether the path is one of the destinations.
    pub fn contains(&self, path: &HostPath) -> (yes: bool)
        ensures
            yes == self@.contains(path@),
    {
        let mut i: usize = 0;
        while i < self.paths.len()
            invariant
                i <= self.paths.len(),
                forall|j: int| 0 <= j < i ==> self@[j] != path@,
            decreases self.paths.len() - i,
        {
            if self.paths[i].same(path) {
                assert(self@[i as int] == path@);
                return true;
            }
            i += 1;
        }
        false
    }

    /// Whether every destination of this set is one of `other`.
    pub fn within(&self, other: &ExcludePaths) -> (yes: bool)
        ensures
            yes == all_within(self@, other@),
    {
        let mut i: usize = 0;
        while i < self.paths.len()
            invariant
                i <= self.paths.len(),
                forall|j: int| 0 <= j < i ==> other@.contains(#[trigger] self@[j]),
            decreases self.paths.len() - i,
        {
            if !other.contains(&self.paths[i]) {
                assert(!other@.contains(self@[i as int]));
                return false;
            }
            i += 1;
        }
        true
    }

    /// Whether the two sets hold the same destinations, in whatever order.
    pub fn same(&self, other: &ExcludePaths) -> (yes: bool)
        ensures
            yes == same_members(self@, other@),
    {
        proof {
            lemma_same_members(self@, other@);
        }
        self.within(other) && other.within(self)
    }

    /// Adds the path, unless it is there already. Says whether it was added.
    pub fn insert(&mut self, path: HostPath) -> (added: bool)
        ensures
            added == !old(self)@.contains(path@),
            final(self)@ == if added {
                old(self)@.push(path@)
            } else {
                old(self)@
            },
            old(self).well_formed() ==> final(self).well_formed(),
    {
        if self.contains(&path) {
            false
        } else {
            proof {
                lemma_views_push(self.paths@, path);
            }
            self.paths.push(path);
            true
        }
    }
}

/// What the policy asks that cannot be done.
#[derive(Debug, PartialEq, Eq)]
pub enum PolicyError {
    /// A destination is not an absolute path.
    RelativeDestination(HostPath),
    /// A source that is not taken from the profile is not an absolute path.
    RelativeSource(HostPath),
}

/// What a [`PolicyError`] holds, as the values that contracts speak of.
pub enum PolicyErrorView {
    RelativeDestination(Seq<Seq<u8>>),
    RelativeSource(Seq<Seq<u8>>),
}

impl View for PolicyError {
    type V = PolicyErrorView;

    open spec fn view(&self) -> PolicyErrorView {
        match self {
            PolicyError::RelativeDestination(p) => PolicyErrorView::RelativeDestination(p@),
            PolicyError::RelativeSource(p) => PolicyErrorView::RelativeSource(p@),
        }
    }
}

/// What is wrong with an excluded destination, if anything.
pub open spec fn exclude_fault(p: Seq<Seq<u8>>) -> Option<PolicyErrorView> {
    if is_absolute(p) {
        None
    } else {
        Some(PolicyErrorView::RelativeDestination(p))
    }
}

/// What is wrong with a mapping, if anything. The source is looked at first,
/// and only where `absolute_source` asks for it.
pub open spec fn mapping_fault(m: MappingView, absolute_source: bool) -> Option<PolicyErrorView> {
    if absolute_source && !is_absolute(m.source) {
        Some(PolicyErrorView::RelativeSource(m.source))
    } else if !is_absolute(m.target) {
        Some(PolicyErrorView::RelativeDestination(m.target))
    } else {
        None
    }
}

/// The first fault of a list, if it has one.
pub open spec fn first_fault(faults: Seq<Option<PolicyErrorView>>) -> Option<PolicyErrorView>
    decreases faults.len(),
{
    if faults.len() == 0 {
        None
    } else {
        match first_fault(faults.drop_last()) {
            Some(e) => Some(e),
            None => faults.last(),
        }
    }
}

/// The faults of the excluded destinations, in order.
pub open spec fn exclude_faults(paths: Seq<Seq<Seq<u8>>>) -> Seq<Option<PolicyErrorView>> {
    Seq::new(paths.len(), |i: int| exclude_fault(paths[i]))
}

/// The faults of the mappings, in order.
pub open spec fn mapping_faults(ms: Seq<MappingView>, absolute_source: bool) -> Seq<
    Option<PolicyErrorView>,
> {
    Seq::new(ms.len(), |i: int| mapping_fault(ms[i], absolute_source))
}

/// The first fault of a list is that of its first part, or, where that has
/// none, that of the rest.
pub proof fn lemma_first_fault_concat(
    a: Seq<Option<PolicyErrorView>>,
    b: Seq<Option<PolicyErrorView>>,
)
    ensures
        first_fault(a + b) == match first_fault(a) {
            Some(e) => Some(e),
            None => first_fault(b),
        },
    decreases b.len(),
{
    if b.len() == 0 {
        assert(a + b =~= a);
    } else {
        assert((a + b).drop_last() =~= a + b.drop_last());
        lemma_first_fault_concat(a, b.drop_last());
    }
}

/// A list of which no item has a fault has no first fault.
pub proof fn lemma_first_fault_none(faults: Seq<Option<PolicyErrorView>>)
    requires
        forall|i: int| 0 <= i < faults.len() ==> faults[i].is_none(),
    ensures
        first_fault(faults).is_none(),
    decreases faults.len(),
{
    if faults.len() > 0 {
        lemma_first_fault_none(faults.drop_last());
    }
}

/// A list without a first fault has no fault at all.
pub proof fn lemma_no_fault(faults: Seq<Option<PolicyErrorView>>, i: int)
    requires
        first_fault(faults).is_none(),
        0 <= i < faults.len(),
    ensures
        faults[i].is_none(),
    decreases faults.len(),
{
    if i < faults.len() - 1 {
        lemma_no_fault(faults.drop_last(), i);
    }
}

/// The mount policy.
#[derive(Debug)]
pub struct PathConfig {
    excludes: ExcludePaths,
    profile: Vec<Mapping>,
    absolute: Vec<Mapping>,
}

/// What a [`PathConfig`] holds, as the values that contracts speak of.
pub struct PathConfigView {
    /// The destinations to keep empty.
    pub excludes: Seq<Seq<Seq<u8>>>,
    /// Sources below the user's profile, each with its destination.
    pub profile: Seq<MappingView>,
    /// Sources given by absolute paths, each with its destination.
    pub absolute: Seq<MappingView>,
}

impl View for PathConfig {
    type V = PathConfigView;

    closed spec fn view(&self) -> PathConfigView {
        PathConfigView {
            excludes: self.excludes@,
            profile: views(self.profile@),
            absolute: views(self.absolute@),
        }
    }
}

impl PathConfigView {
    /// No destination is excluded twice, and no source is mapped twice.
    pub open spec fn well_formed(self) -> bool {
        &&& self.excludes.no_duplicates()
        &&& distinct_sources(self.profile)
        &&& distinct_sources(self.absolute)
    }

    /// Whether the two policies ask for the same, in whatever order.
    pub open spec fn same_as(self, other: PathConfigView) -> bool {
        &&& same_members(self.excludes, other.excludes)
        &&& same_members(self.profile, other.profile)
        &&& same_members(self.absolute, other.absolute)
    }

    /// The first thing that the policy asks and that cannot be done: the
    /// excluded destinations come first, then the profile mounts, then the
    /// absolute ones.
    pub open spec fn fault(self) -> Option<PolicyErrorView> {
        first_fault(
            exclude_faults(self.excludes) + mapping_faults(self.profile, false) + mapping_faults(
                self.absolute,
                true,
            ),
        )
    }

    /// Every destination is absolute, and so is every source that is not
    /// taken from the profile.
    pub open spec fn valid(self) -> bool {
        &&& forall|i: int| 0 <= i < self.excludes.len() ==> is_absolute(#[trigger] self.excludes[i])
        &&& forall|i: int|
            0 <= i < self.profile.len() ==> is_absolute((#[trigger] self.profile[i]).target)
        &&& forall|i: int|
            0 <= i < self.absolute.len() ==> is_absolute((#[trigger] self.absolute[i]).target)
                && is_absolute(self.absolute[i].source)
    }
}

/// A policy is valid exactly when it has no fault.
pub proof fn lemma_valid_iff_no_fault(c: PathConfigView)
    ensures
        c.valid() <==> c.fault().is_none(),
{
    let a = exclude_faults(c.excludes);
    let b = mapping_faults(c.profile, false);
    let d = mapping_faults(c.absolute, true);
    lemma_first_fault_concat(a + b, d);
    lemma_first_fault_concat(a, b);
    if c.valid() {
        lemma_first_fault_none(a);
        lemma_first_fault_none(b);
        lemma_first_fault_none(d);
    }
    if c.fault().is_none() {
        assert forall|i: int| 0 <= i < c.excludes.len() implies is_absolute(
            #[trigger] c.excludes[i],
        ) by {
            lemma_no_fault(a, i);
        }
        assert forall|i: int| 0 <= i < c.profile.len() implies is_absolute(
            (#[trigger] c.profile[i]).target,
        ) by {
            lemma_no_fault(b, i);
        }
        assert forall|i: int| 0 <= i < c.absolute.len() implies is_absolute(
            (#[trigger] c.absolute[i]).target,
        ) && is_absolute(c.absolute[i].source) by {
            lemma_no_fault(d, i);
        }
    }
}

/// Whether the mapping at place `i` is the first of `ms` with the source
/// `source`.
pub open spec fn is_first_with(ms: Seq<MappingView>, source: Seq<Seq<u8>>, i: int) -> bool {
    &&& 0 <= i < ms.len()
    &&& ms[i].source == source
    &&& forall|j: int| 0 <= j < i ==> (#[trigger] ms[j]).source != source
}

/// The mappings with `m` put in: in the place of the first mapping with the
/// same source where there is one, else at the end.
pub open spec fn put(ms: Seq<MappingView>, m: MappingView) -> Seq<MappingView> {
    if has_source(ms, m.source) {
        ms.update(choose|i: int| is_first_with(ms, m.source, i), m)
    } else {
        ms.push(m)
    }
}

/// Puts `m` into the list.
fn put_mapping(list: &mut Vec<Mapping>, m: Mapping)
    ensures
        views(final(list)@) == put(views(old(list)@), m@),
        distinct_sources(views(old(list)@)) ==> distinct_sources(views(final(list)@)),
{
    let ghost before = views(list@);
    let mut i: usize = 0;
    while i < list.len()
        invariant
            i <= list.len(),
            views(list@) == before,
            before == views(old(list)@),
            forall|j: int| 0 <= j < i ==> (#[trigger] before[j]).source != m@.source,
        decreases list.len() - i,
    {
        if list[i].source.same(&m.source) {
            proof {
                assert(before[i as int].source == m@.source);
                assert(is_first_with(before, m@.source, i as int));
                let k = choose|k: int| is_first_with(before, m@.source, k);
                assert(k == i) by {
                    if k < i {
                        assert(before[k].source != m@.source);
                    } else if k > i {
                        assert(before[i as int].source != m@.source);
                    }
                }
            }
            let ghost mv = m@;
            list.set(i, m);
            assert(views(list@) =~= before.update(i as int, mv));
            return ;
        }
        i += 1;
    }
    proof {
        lemma_views_push(list@, m);
        assert(!has_source(before, m@.source));
    }
    list.push(m);
}

/// The first fault among the excluded destinations.
fn scan_excludes(set: &ExcludePaths) -> (fault: Option<PolicyError>)
    ensures
        match fault {
            Some(e) => first_fault(exclude_faults(set@)) == Some(e@),
            None => first_fault(exclude_faults(set@)).is_none(),
        },
{
    let ghost all = exclude_faults(set@);
    let mut i: usize = 0;
    assert(all.take(0) =~= Seq::<Option<PolicyErrorView>>::empty());
    while i < set.len()
        invariant
            i <= set@.len(),
            all == exclude_faults(set@),
            first_fault(all.take(i as int)).is_none(),
        decreases set@.len() - i,
    {
        assert(all.take(i + 1).drop_last() =~= all.take(i as int));
        assert(all =~= all.take(i + 1) + all.skip(i + 1));
        if !set.get(i).is_absolute() {
            proof {
                lemma_first_fault_concat(all.take(i + 1), all.skip(i + 1));
            }
            return Some(PolicyError::RelativeDestination(set.get(i).clone()));
        }
        i += 1;
    }
    assert(all.take(set@.len() as int) =~= all);
    None
}

/// The first fault among the mappings.
fn scan_mappings(list: &Vec<Mapping>, absolute_source: bool) -> (fault: Option<PolicyError>)
    ensures
        match fault {
            Some(e) => first_fault(mapping_faults(views(list@), absolute_source)) == Some(e@),
            None => first_fault(mapping_faults(views(list@), absolute_source)).is_none(),
        },
{
    let ghost all = mapping_faults(views(list@), absolute_source);
    let mut i: usize = 0;
    assert(all.take(0) =~= Seq::<Option<PolicyErrorView>>::empty());
    while i < list.len()
        invariant
            i <= list.len(),
            all == mapping_faults(views(list@), absolute_source),
            first_fault(all.take(i as int)).is_none(),
        decreases list.len() - i,
    {
        assert(all.take(i + 1).drop_last() =~= all.take(i as int));
        assert(all =~= all.take(i + 1) + all.skip(i + 1));
        if absolute_source && !list[i].source.is_absolute() {
            proof {
                lemma_first_fault_concat(all.take(i + 1), all.skip(i + 1));
            }
            return Some(PolicyError::RelativeSource(list[i].source.clone()));
        }
        if !list[i].target.is_absolute() {
            proof {
                lemma_first_fault_concat(all.take(i + 1), all.skip(i + 1));
            }
            return Some(PolicyError::RelativeDestination(list[i].target.clone()));
        }
        i += 1;
    }
    assert(all.take(list.len() as int) =~= all);
    None
}

/// A copy of a list of mappings.
pub fn copy_mappings(list: &Vec<Mapping>) -> (copy: Vec<Mapping>)
    ensures
        views(copy@) == views(list@),
{
    let mut copy: Vec<Mapping> = Vec::new();
    let mut i: usize = 0;
    while i < list.len()
        invariant
            i <= list.len(),
            views(copy@) == views(list@).take(i as int),
        decreases list.len() - i,
    {
        let mapping = list[i].clone();
        proof {
            lemma_views_push(copy@, mapping);
            assert(views(list@).take(i + 1) =~= views(list@).take(i as int).push(mapping@));
        }
        copy.push(mapping);
        i += 1;
    }
    assert(views(list@).take(list.len() as int) =~= views(list@));
    copy
}

impl Clone for PathConfig {
    fn clone(&self) -> (copy: PathConfig)
        ensures
            copy@ == self@,
    {
        PathConfig {
            excludes: self.excludes.clone(),
            profile: copy_mappings(&self.profile),
            absolute: copy_mappings(&self.absolute),
        }
    }
}

impl PathConfig {
    /// The policy that excludes `excludes` and maps nothing.
    pub fn new(excludes: ExcludePaths) -> (config: PathConfig)
        ensures
            config@ == (PathConfigView {
                excludes: excludes@,
                profile: Seq::empty(),
                absolute: Seq::empty(),
            }),
            excludes.well_formed() ==> config@.well_formed(),
    {
        let config = PathConfig { excludes, profile: Vec::new(), absolute: Vec::new() };
        assert(config@.profile =~= Seq::<MappingView>::empty());
        assert(config@.absolute =~= Seq::<MappingView>::empty());
        config
    }

    /// Maps the `source` below the user's profile to `target`, replacing
    /// what `source` was mapped to before.
    pub fn add_profile(&mut self, source: HostPath, target: HostPath)
        ensures
            final(self)@ == (PathConfigView {
                profile: put(old(self)@.profile, MappingView { source: source@, target: target@ }),
                ..old(self)@
            }),
            old(self)@.well_formed() ==> final(self)@.well_formed(),
    {
        put_mapping(&mut self.profile, Mapping { source, target });
    }

    /// Maps the absolute `source` to `target`, replacing what `source` was
    /// mapped to before.
    pub fn add_absolute(&mut self, source: HostPath, target: HostPath)
        ensures
            final(self)@ == (PathConfigView {
                absolute: put(
                    old(self)@.absolute,
                    MappingView { source: source@, target: target@ },
                ),
                ..old(self)@
            }),
            old(self)@.well_formed() ==> final(self)@.well_formed(),
    {
        put_mapping(&mut self.absolute, Mapping { source, target });
    }

    /// The destinations to keep empty.
    pub fn excludes(&self) -> (set: &ExcludePaths)
        ensures
            set@ == self@.excludes,
    {
        &self.excludes
    }

    /// The profile mounts.
    pub fn profile(&self) -> (list: &Vec<Mapping>)
        ensures
            views(list@) == self@.profile,
    {
        &self.profile
    }

    /// The absolute mounts.
    pub fn absolute(&self) -> (list: &Vec<Mapping>)
        ensures
            views(list@) == self@.absolute,
    {
        &self.absolute
    }

    /// Whether the two policies ask for the same: the same destinations
    /// excluded, and the same sources mapped to the same destinations, in
    /// whatever order.
    pub fn same(&self, other: &PathConfig) -> (yes: bool)
        ensures
            yes == self@.same_as(other@),
    {
        self.excludes.same(&other.excludes) && same_mappings(&self.profile, &other.profile)
            && same_mappings(&self.absolute, &other.absolute)
    }

    /// Finds the first thing that the policy asks and that cannot be done.
    /// A policy passes exactly when every destination is absolute and every
    /// source that is not taken from the profile is absolute.
    pub fn validate(&self) -> (result: Result<(), PolicyError>)
        ensures
            match result {
                Ok(_) => self@.fault().is_none() && self@.valid(),
                Err(e) => self@.fault() == Some(e@) && !self@.valid(),
            },
    {
        proof {
            let a = exclude_faults(self@.excludes);
            let b = mapping_faults(self@.profile, false);
            let d = mapping_faults(self@.absolute, true);
            lemma_first_fault_concat(a + b, d);
            lemma_first_fault_concat(a, b);
            lemma_valid_iff_no_fault(self@);
        }
        match scan_excludes(&self.excludes) {
            Some(e) => {
                return Err(e);
            },
            None => {},
        }
        match scan_mappings(&self.profile, false) {
            Some(e) => {
                return Err(e);
            },
            None => {},
        }
        match scan_mappings(&self.absolute, true) {
            Some(e) => Err(e),
            None => Ok(()),
        }
    }
}

} // verus!
