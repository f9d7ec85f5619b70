//! Measured endpoints grouped by country, and the correction of each
//! endpoint's country from its observed geolocation.
use vstd::prelude::*;

verus! {

/// An endpoint of the catalog together with its representative round-trip time.
pub struct Measurement {
    /// Display name (a city-like label, possibly empty).
    pub name: String,
    /// Textual IPv4 or IPv6 address.
    pub address: String,
    /// The country code that the catalog claims for the endpoint.
    pub claimed: String,
    /// Representative round-trip time in nanoseconds.
    pub rtt_ns: u64,
}

pub struct MeasurementView {
    pub name: Seq<char>,
    pub address: Seq<char>,
    pub claimed: Seq<char>,
    pub rtt_ns: u64,
}

impl View for Measurement {
    type V = MeasurementView;

    open spec fn view(&self) -> MeasurementView {
        MeasurementView {
            name: self.name@,
            address: self.address@,
            claimed: self.claimed@,
            rtt_ns: self.rtt_ns,
        }
    }
}

/// The text that `str::trim` leaves of a text.
pub uninterp spec fn trim_of(s: Seq<char>) -> Seq<char>;

/// Relies on `str::trim`: the text without its leading and trailing white
/// space, which depends on the characters alone.
#[verifier::external_body]
fn trimmed(s: &str) -> (r: &str)
    ensures
        r@ == trim_of(s@),
{
    s.trim()
}

/// The measurement `m` with the display name `city`, where its own name is
/// blank and a city is known.
pub open spec fn named(m: MeasurementView, name_blank: bool, city: Option<Seq<char>>) -> MeasurementView {
    match city {
        Some(c) => if name_blank {
            MeasurementView { name: c, ..m }
        } else {
            m
        },
        None => m,
    }
}

impl Measurement {
    /// The display name holds nothing but white space.
    pub fn name_is_blank(&self) -> (r: bool)
        ensures
            r == (trim_of(self.name@).len() == 0),
    {
        trimmed(self.name.as_str()).is_empty()
    }

    /// A copy of the measurement that takes `city` as its display name where
    /// `name_blank` and a city is given.
    pub fn named_by(&self, name_blank: bool, city: &Option<String>) -> (r: Measurement)
        ensures
            r@ == named(
                self@,
                name_blank,
                match city {
                    Some(c) => Some(c@),
                    None => None,
                },
            ),
    {
        let mut r = self.duplicate();
        if name_blank {
            if let Some(c) = city {
                r.name = c.clone();
            }
        }
        r
    }

    /// A copy of the measurement.
    pub fn duplicate(&self) -> (r: Measurement)
        ensures
            r@ == self@,
    {
        Measurement {
            name: self.name.clone(),
            address: self.address.clone(),
            claimed: self.claimed.clone(),
            rtt_ns: self.rtt_ns,
        }
    }
}

/// The measurements currently attributed to one country, in order.
pub struct CountryGroup {
    pub country: String,
    pub measurements: Vec<Measurement>,
}

/// A group as a country code and a sequence of measurements.
pub type GroupView = (Seq<char>, Seq<MeasurementView>);

impl View for CountryGroup {
    type V = GroupView;

    open spec fn view(&self) -> GroupView {
        (self.country@, self.measurements@.map_values(|m: Measurement| m@))
    }
}

pub open spec fn view_groups(s: Seq<CountryGroup>) -> Seq<GroupView> {
    s.map_values(|g: CountryGroup| g@)
}

/// No two groups have the same country code.
pub open spec fn keys_distinct(gs: Seq<GroupView>) -> bool {
    forall|i: int, j: int| 0 <= i < gs.len() && 0 <= j < gs.len() && i != j ==> gs[i].0 != gs[j].0
}

/// The total number of measurements over all groups.
pub open spec fn total(gs: Seq<GroupView>) -> nat
    decreases gs.len(),
{
    if gs.len() == 0 {
        0
    } else {
        total(gs.drop_last()) + gs.last().1.len()
    }
}

/// Some group of `gs` has country `k`.
pub open spec fn has_key(gs: Seq<GroupView>, k: Seq<char>) -> bool {
    exists|i: int| 0 <= i < gs.len() && gs[i].0 == k
}

/// A position of a group of country `k` in `gs`, where there is one.
pub open spec fn key_pos(gs: Seq<GroupView>, k: Seq<char>) -> int {
    choose|i: int| 0 <= i < gs.len() && gs[i].0 == k
}

/// `gs` with `m` appended to the group of country `k`, which is created at the
/// end where there is none.
pub open spec fn place(gs: Seq<GroupView>, k: Seq<char>, m: MeasurementView) -> Seq<GroupView> {
    if has_key(gs, k) {
        let i = key_pos(gs, k);
        gs.update(i, (k, gs[i].1.push(m)))
    } else {
        gs.push((k, seq![m]))
    }
}

/// `gs` after placing each of `moves`, in order.
pub open spec fn place_all(gs: Seq<GroupView>, moves: Seq<(Seq<char>, MeasurementView)>) -> Seq<GroupView>
    decreases moves.len(),
{
    if moves.len() == 0 {
        gs
    } else {
        let last = moves.last();
        place(place_all(gs, moves.drop_last()), last.0, last.1)
    }
}

/// The resolved countries handed in for the group at position `g`.
pub open spec fn row(res: Seq<Seq<Option<Seq<char>>>>, g: int) -> Seq<Option<Seq<char>>> {
    if 0 <= g < res.len() {
        res[g]
    } else {
        Seq::empty()
    }
}

/// The country resolved for the measurement at position `j`; none where the
/// lookup failed or no result was handed in.
pub open spec fn resolved_at(r: Seq<Option<Seq<char>>>, j: int) -> Option<Seq<char>> {
    if 0 <= j < r.len() {
        r[j]
    } else {
        None
    }
}

/// The measurement at position `j` of the group of country `k` belongs elsewhere.
pub open spec fn moves_away(k: Seq<char>, r: Seq<Option<Seq<char>>>, j: int) -> bool {
    match resolved_at(r, j) {
        Some(c) => c != k,
        None => false,
    }
}

/// The measurements of `ms` that stay in the group of country `k`, in order.
pub open spec fn group_kept(k: Seq<char>, ms: Seq<MeasurementView>, r: Seq<Option<Seq<char>>>) -> Seq<MeasurementView>
    decreases ms.len(),
{
    if ms.len() == 0 {
        Seq::empty()
    } else {
        let prev = group_kept(k, ms.drop_last(), r);
        if moves_away(k, r, ms.len() - 1) {
            prev
        } else {
            prev.push(ms.last())
        }
    }
}

/// The measurements of `ms` that leave the group of country `k`, each with the
/// country it goes to, in order.
pub open spec fn group_moves(k: Seq<char>, ms: Seq<MeasurementView>, r: Seq<Option<Seq<char>>>) -> Seq<(Seq<char>, MeasurementView)>
    decreases ms.len(),
{
    if ms.len() == 0 {
        Seq::empty()
    } else {
        let prev = group_moves(k, ms.drop_last(), r);
        if moves_away(k, r, ms.len() - 1) {
            prev.push((resolved_at(r, ms.len() - 1)->Some_0, ms.last()))
        } else {
            prev
        }
    }
}

/// Every relocation of a scan of `gs`, group after group, in order.
pub open spec fn all_moves(gs: Seq<GroupView>, res: Seq<Seq<Option<Seq<char>>>>) -> Seq<(Seq<char>, MeasurementView)>
    decreases gs.len(),
{
    if gs.len() == 0 {
        Seq::empty()
    } else {
        let g = gs.len() - 1;
        all_moves(gs.drop_last(), res) + group_moves(gs[g].0, gs[g].1, row(res, g))
    }
}

/// Each group of `gs` with only the measurements that stay in it.
pub open spec fn kept_groups(gs: Seq<GroupView>, res: Seq<Seq<Option<Seq<char>>>>) -> Seq<GroupView> {
    Seq::new(gs.len(), |g: int| (gs[g].0, group_kept(gs[g].0, gs[g].1, row(res, g))))
}

/// The groups after reconciliation: every measurement whose resolved country
/// differs from its group's key leaves that group and is appended, in scan
/// order, to the group of the resolved country.
pub open spec fn reconciled(gs: Seq<GroupView>, res: Seq<Seq<Option<Seq<char>>>>) -> Seq<GroupView> {
    place_all(kept_groups(gs, res), all_moves(gs, res))
}

/// Measured endpoints keyed by country code, each country at most once, in
/// the order in which the countries first appeared.
pub struct CountryGroups {
    groups: Vec<CountryGroup>,
}

impl View for CountryGroups {
    type V = Seq<GroupView>;

    closed spec fn view(&self) -> Seq<GroupView> {
        view_groups(self.groups@)
    }
}

impl CountryGroups {
    pub open spec fn wf(&self) -> bool {
        keys_distinct(self@)
    }

    /// No groups yet.
    pub fn new() -> (r: CountryGroups)
        ensures
            r.wf(),
            r@ == Seq::<GroupView>::empty(),
    {
        let r = CountryGroups { groups: Vec::new() };
        assert(r@ =~= Seq::<GroupView>::empty());
        r
    }

    /// The groups, in order.
    pub fn groups(&self) -> (r: &Vec<CountryGroup>)
        ensures
            view_groups(r@) == self@,
    {
        &self.groups
    }

    /// Appends `m` to the group of `country`, which is created at the end where
    /// there is none.
    pub fn add(&mut self, country: String, m: Measurement)
        requires
            old(self).wf(),
        ensures
            final(self).wf(),
            final(self)@ == place(old(self)@, country@, m@),
    {
        let ghost gs = self@;
        let n = self.groups.len();
        let mut i: usize = 0;
        while i < n
            invariant
                n == self.groups@.len(),
                gs == view_groups(self.groups@),
                i <= n,
                forall|j: int| 0 <= j < i ==> gs[j].0 != country@,
            ensures
                i <= n,
                forall|j: int| 0 <= j < i ==> gs[j].0 != country@,
                i < n ==> gs[i as int].0 == country@,
            decreases n - i,
        {
            if self.groups[i].country == country {
                break;
            }
            i = i + 1;
        }
        if i < n {
            let mut grp = self.groups.remove(i);
            let ghost ms = grp.measurements@;
            grp.measurements.push(m);
            assert(grp.measurements@.map_values(|x: Measurement| x@) =~= ms.map_values(
                |x: Measurement| x@,
            ).push(m@));
            self.groups.insert(i, grp);
            let ghost ni = i as int;
            assert(has_key(gs, country@)) by {
                assert(gs[ni].0 == country@);
            }
            let ghost c = key_pos(gs, country@);
            assert(c == ni);
            assert(self@ =~= gs.update(ni, (country@, gs[ni].1.push(m@))));
        } else {
            let ghost ms: Seq<MeasurementView> = seq![m@];
            let mut v: Vec<Measurement> = Vec::new();
            v.push(m);
            assert(v@.map_values(|x: Measurement| x@) =~= ms);
            self.groups.push(CountryGroup { country, measurements: v });
            assert(self@ =~= gs.push((country@, ms)));
        }
    }

    /// Files the outcome of probing one endpoint of the catalog: where the
    /// endpoint gave a round-trip time it is added under its claimed country,
    /// otherwise it is dropped.
    pub fn add_probed(&mut self, name: String, address: String, claimed: String, rtt_ns: Option<u64>)
        requires
            old(self).wf(),
        ensures
            final(self).wf(),
            final(self)@ == (match rtt_ns {
                Some(t) => place(
                    old(self)@,
                    claimed@,
                    MeasurementView { name: name@, address: address@, claimed: claimed@, rtt_ns: t },
                ),
                None => old(self)@,
            }),
    {
        if let Some(t) = rtt_ns {
            let key = claimed.clone();
            self.add(key, Measurement { name, address, claimed, rtt_ns: t });
        }
    }

    /// Gives each measurement whose display name is blank the city that
    /// geolocation found for it: `cities[g][j]` belongs to measurement `j` of
    /// group `g`, and a missing entry or `None` leaves the name as it is.
    pub fn fill_names(&self, cities: &Vec<Vec<Option<String>>>) -> (r: CountryGroups)
        requires
            self.wf(),
        ensures
            r.wf(),
            r@ == with_names(self@, cities.deep_view()),
    {
        let ghost gs = self@;
        let ghost cs = cities.deep_view();
        let n = self.groups.len();
        let mut out: Vec<CountryGroup> = Vec::new();
        let mut g: usize = 0;
        while g < n
            invariant
                n == gs.len(),
                gs == view_groups(self.groups@),
                cs == cities.deep_view(),
                g <= n,
                view_groups(out@) == with_names(gs, cs).take(g as int),
            decreases n - g,
        {
            let grp = &self.groups[g];
            let ghost k = gs[g as int].0;
            let ghost ms = gs[g as int].1;
            let ghost target = with_names(gs, cs)[g as int].1;
            let m_len = grp.measurements.len();
            let mut named_ms: Vec<Measurement> = Vec::new();
            let mut j: usize = 0;
            while j < m_len
                invariant
                    n == gs.len(),
                    g < n,
                    gs == view_groups(self.groups@),
                    cs == cities.deep_view(),
                    grp == self.groups@[g as int],
                    ms == grp.measurements@.map_values(|x: Measurement| x@),
                    target == with_names(gs, cs)[g as int].1,
                    m_len == ms.len(),
                    j <= m_len,
                    named_ms@.map_values(|x: Measurement| x@) == target.take(j as int),
                decreases m_len - j,
            {
                let m = &grp.measurements[j];
                let none: Option<String> = None;
                let city: &Option<String> = if g < cities.len() && j < cities[g].len() {
                    &cities[g][j]
                } else {
                    &none
                };
                proof {
                    if g < cities.len() {
                        assert(row(cs, g as int) == cities@[g as int].deep_view());
                    }
                }
                let ghost cv = match city {
                    Some(c) => Some(c@),
                    None => None,
                };
                proof {
                    if g < cities.len() && j < cities@[g as int].len() {
                        assert(cs[g as int] == cities@[g as int].deep_view());
                        assert(cs[g as int][j as int] == cities@[g as int]@[j as int].deep_view());
                    }
                    assert(resolved_at(row(cs, g as int), j as int) == cv);
                    assert(ms[j as int] == m@);
                }
                let blank = m.name_is_blank();
                let nm = m.named_by(blank, city);
                assert(target[j as int] == nm@);
                let ghost before = named_ms@;
                named_ms.push(nm);
                assert(named_ms@.map_values(|x: Measurement| x@) =~= before.map_values(
                    |x: Measurement| x@,
                ).push(nm@));
                assert(target.take(j + 1) =~= target.take(j as int).push(target[j as int]));
                j = j + 1;
            }
            assert(target.take(m_len as int) =~= target);
            let ghost out0 = out@;
            assert(with_names(gs, cs)[g as int] == (k, target));
            assert(grp.country@ == k);
            out.push(CountryGroup { country: grp.country.clone(), measurements: named_ms });
            assert(view_groups(out@) =~= view_groups(out0).push((k, target)));
            assert(with_names(gs, cs).take(g + 1) =~= with_names(gs, cs).take(g as int).push(
                (k, target),
            ));
            g = g + 1;
        }
        assert(with_names(gs, cs).take(n as int) =~= with_names(gs, cs));
        let r = CountryGroups { groups: out };
        assert(r.wf()) by {
            assert forall|a: int, b: int| 0 <= a < r@.len() && 0 <= b < r@.len() && a != b implies r@[a].0
                != r@[b].0 by {
                assert(r@[a].0 == gs[a].0 && r@[b].0 == gs[b].0);
            }
        }
        r
    }

    /// Corrects the country of every measurement. `resolved[g][j]` is the
    /// country that geolocation gave for measurement `j` of group `g`, or `None`
    /// where the lookup failed (a missing entry counts as a failed lookup). All
    /// decisions are taken on the groups as they are; then each measurement
    /// whose resolved country differs from its group's key leaves that group
    /// and is appended, in scan order, to the group of its resolved country.
    pub fn reconcile(&self, resolved: &Vec<Vec<Option<String>>>) -> (r: CountryGroups)
        requires
            self.wf(),
        ensures
            r.wf(),
            r@ == reconciled(self@, resolved.deep_view()),
    {
        let ghost gs = self@;
        let ghost res = resolved.deep_view();
        let n = self.groups.len();
        let mut kept: Vec<CountryGroup> = Vec::new();
        let mut moved: Vec<(String, Measurement)> = Vec::new();
        let mut g: usize = 0;
        while g < n
            invariant
                n == gs.len(),
                gs == view_groups(self.groups@),
                res == resolved.deep_view(),
                g <= n,
                view_groups(kept@) == kept_groups(gs.take(g as int), res),
                view_moves(moved@) == all_moves(gs.take(g as int), res),
            decreases n - g,
        {
            let grp = &self.groups[g];
            let ghost k = gs[g as int].0;
            let ghost ms = gs[g as int].1;
            let ghost rw = row(res, g as int);
            let ghost moved0 = view_moves(moved@);
            let m_len = grp.measurements.len();
            let mut ks: Vec<Measurement> = Vec::new();
            let mut j: usize = 0;
            while j < m_len
                invariant
                    n == gs.len(),
                    g < n,
                    gs == view_groups(self.groups@),
                    res == resolved.deep_view(),
                    grp == self.groups@[g as int],
                    k == grp.country@,
                    ms == grp.measurements@.map_values(|x: Measurement| x@),
                    rw == row(res, g as int),
                    m_len == ms.len(),
                    j <= m_len,
                    ks@.map_values(|x: Measurement| x@) == group_kept(k, ms.take(j as int), rw),
                    view_moves(moved@) == moved0 + group_moves(k, ms.take(j as int), rw),
                decreases m_len - j,
            {
                let m = &grp.measurements[j];
                let mut target: Option<&String> = None;
                if g < resolved.len() && j < resolved[g].len() {
                    match &resolved[g][j] {
                        Some(c) => {
                            target = Some(c);
                        },
                        None => {},
                    }
                }
                proof {
                    assert(ms.take(j as int + 1).drop_last() =~= ms.take(j as int));
                    if g < resolved.len() {
                        assert(rw == resolved@[g as int].deep_view());
                    }
                }
                let ghost ks0 = ks@;
                let ghost mv0 = moved@;
                match target {
                    Some(c) if !c.eq(&grp.country) => {
                        let dm = m.duplicate();
                        moved.push((c.clone(), dm));
                        assert(view_moves(moved@) =~= view_moves(mv0).push((c@, m@)));
                    },
                    _ => {
                        let dm = m.duplicate();
                        ks.push(dm);
                        assert(ks@.map_values(|x: Measurement| x@) =~= ks0.map_values(
                            |x: Measurement| x@,
                        ).push(m@));
                    },
                }
                j = j + 1;
            }
            assert(ms.take(m_len as int) =~= ms);
            let ghost kept0 = kept@;
            kept.push(CountryGroup { country: grp.country.clone(), measurements: ks });
            proof {
                let t1 = gs.take(g as int + 1);
                assert(t1.drop_last() =~= gs.take(g as int));
                assert(t1[g as int] == gs[g as int]);
                assert(gs[g as int] == (k, ms));
                assert(all_moves(t1, res) == all_moves(gs.take(g as int), res) + group_moves(
                    k,
                    ms,
                    rw,
                ));
                assert(view_groups(kept@) =~= view_groups(kept0).push(
                    (k, group_kept(k, ms, rw)),
                ));
                assert(kept_groups(gs.take(g as int + 1), res) =~= kept_groups(
                    gs.take(g as int),
                    res,
                ).push((k, group_kept(k, ms, rw))));
            }
            g = g + 1;
        }
        assert(gs.take(n as int) =~= gs);
        let mut out = CountryGroups { groups: kept };
        assert(out.wf());
        let ghost base = out@;
        let ghost mv = view_moves(moved@);
        let mut i: usize = 0;
        let mvn = moved.len();
        while i < mvn
            invariant
                mvn == moved@.len(),
                mv == view_moves(moved@),
                i <= mvn,
                out.wf(),
                out@ == place_all(base, mv.take(i as int)),
            decreases mvn - i,
        {
            let (c, m) = &moved[i];
            assert(mv.take(i as int + 1).drop_last() =~= mv.take(i as int));
            out.add(c.clone(), m.duplicate());
            i = i + 1;
        }
        assert(mv.take(mvn as int) =~= mv);
        out
    }
}

/// The groups of `gs` where each measurement whose name is blank takes the city
/// handed in for it in `cities`, where there is one.
pub open spec fn with_names(gs: Seq<GroupView>, cities: Seq<Seq<Option<Seq<char>>>>) -> Seq<GroupView> {
    Seq::new(
        gs.len(),
        |g: int|
            (
                gs[g].0,
                Seq::new(
                    gs[g].1.len(),
                    |j: int|
                        named(
                            gs[g].1[j],
                            trim_of(gs[g].1[j].name).len() == 0,
                            resolved_at(row(cities, g), j),
                        ),
                ),
            ),
    )
}

/// Relocations as a country code and a measurement each.
pub open spec fn view_moves(s: Seq<(String, Measurement)>) -> Seq<(Seq<char>, MeasurementView)> {
    s.map_values(|p: (String, Measurement)| (p.0@, p.1@))
}

proof fn lemma_total_push(gs: Seq<GroupView>, x: GroupView)
    ensures
        total(gs.push(x)) == total(gs) + x.1.len(),
{
    assert(gs.push(x).drop_last() =~= gs);
}

proof fn lemma_total_grow(gs: Seq<GroupView>, i: int, x: GroupView)
    requires
        0 <= i < gs.len(),
        x.1.len() == gs[i].1.len() + 1,
    ensures
        total(gs.update(i, x)) == total(gs) + 1,
    decreases gs.len(),
{
    let u = gs.update(i, x);
    if i == gs.len() - 1 {
        assert(u.drop_last() =~= gs.drop_last());
    } else {
        assert(u.drop_last() =~= gs.drop_last().update(i, x));
        lemma_total_grow(gs.drop_last(), i, x);
    }
}

proof fn lemma_total_place_all(gs: Seq<GroupView>, moves: Seq<(Seq<char>, MeasurementView)>)
    ensures
        total(place_all(gs, moves)) == total(gs) + moves.len(),
    decreases moves.len(),
{
    if moves.len() > 0 {
        let prev = place_all(gs, moves.drop_last());
        lemma_total_place_all(gs, moves.drop_last());
        let k = moves.last().0;
        let m = moves.last().1;
        assert(place_all(gs, moves) == place(prev, k, m));
        if has_key(prev, k) {
            let i = key_pos(prev, k);
            lemma_total_grow(prev, i, (k, prev[i].1.push(m)));
            assert(place_all(gs, moves) == prev.update(i, (k, prev[i].1.push(m))));
        } else {
            lemma_total_push(prev, (k, seq![m]));
            assert(place_all(gs, moves) == prev.push((k, seq![m])));
            assert(seq![m].len() == 1);
        }
    }
}

proof fn lemma_group_split(k: Seq<char>, ms: Seq<MeasurementView>, r: Seq<Option<Seq<char>>>)
    ensures
        group_kept(k, ms, r).len() + group_moves(k, ms, r).len() == ms.len(),
    decreases ms.len(),
{
    if ms.len() > 0 {
        lemma_group_split(k, ms.drop_last(), r);
    }
}

proof fn lemma_kept_total(gs: Seq<GroupView>, res: Seq<Seq<Option<Seq<char>>>>)
    ensures
        total(kept_groups(gs, res)) + all_moves(gs, res).len() == total(gs),
    decreases gs.len(),
{
    if gs.len() > 0 {
        let g = gs.len() - 1;
        assert(kept_groups(gs.drop_last(), res) =~= kept_groups(gs, res).drop_last());
        lemma_kept_total(gs.drop_last(), res);
        lemma_group_split(gs[g].0, gs[g].1, row(res, g));
    }
}

/// Reconciliation only relocates measurements: whatever the lookups gave,
/// failed ones included, the total number of measurements stays the same.
pub proof fn lemma_reconcile_keeps_count(gs: Seq<GroupView>, res: Seq<Seq<Option<Seq<char>>>>)
    ensures
        total(reconciled(gs, res)) == total(gs),
{
    lemma_kept_total(gs, res);
    lemma_total_place_all(kept_groups(gs, res), all_moves(gs, res));
}

/// Every measurement of group `g` of `gs` either failed to resolve or resolved
/// to that group's own country.
pub open spec fn settled(gs: Seq<GroupView>, res: Seq<Seq<Option<Seq<char>>>>) -> bool {
    forall|g: int, j: int|
        0 <= g < gs.len() && 0 <= j < gs[g].1.len() ==> !#[trigger] moves_away(gs[g].0, row(res, g), j)
}

proof fn lemma_group_settled(k: Seq<char>, ms: Seq<MeasurementView>, r: Seq<Option<Seq<char>>>)
    requires
        forall|j: int| 0 <= j < ms.len() ==> !#[trigger] moves_away(k, r, j),
    ensures
        group_kept(k, ms, r) == ms,
        group_moves(k, ms, r).len() == 0,
    decreases ms.len(),
{
    if ms.len() > 0 {
        lemma_group_settled(k, ms.drop_last(), r);
        assert(!moves_away(k, r, ms.len() - 1));
        assert(ms.drop_last().push(ms.last()) =~= ms);
    }
}

proof fn lemma_all_moves_settled(gs: Seq<GroupView>, res: Seq<Seq<Option<Seq<char>>>>)
    requires
        settled(gs, res),
    ensures
        all_moves(gs, res).len() == 0,
        kept_groups(gs, res) == gs,
    decreases gs.len(),
{
    if gs.len() > 0 {
        let g = gs.len() - 1;
        assert(settled(gs.drop_last(), res)) by {
            assert forall|a: int, j: int|
                0 <= a < gs.drop_last().len() && 0 <= j < gs.drop_last()[a].1.len() implies !#[trigger] moves_away(
                gs.drop_last()[a].0,
                row(res, a),
                j,
            ) by {
                assert(gs.drop_last()[a] == gs[a]);
                assert(!moves_away(gs[a].0, row(res, a), j));
            }
        }
        lemma_all_moves_settled(gs.drop_last(), res);
        assert forall|h: int| 0 <= h < gs.len() implies group_kept(gs[h].0, gs[h].1, row(res, h))
            == gs[h].1 by {
            assert forall|j: int| 0 <= j < gs[h].1.len() implies !#[trigger] moves_away(
                gs[h].0,
                row(res, h),
                j,
            ) by {
                assert(!moves_away(gs[h].0, row(res, h), j));
            }
            lemma_group_settled(gs[h].0, gs[h].1, row(res, h));
        }
        assert forall|j: int| 0 <= j < gs[g].1.len() implies !#[trigger] moves_away(
            gs[g].0,
            row(res, g),
            j,
        ) by {
            assert(!moves_away(gs[g].0, row(res, g), j));
        }
        lemma_group_settled(gs[g].0, gs[g].1, row(res, g));
    }
    assert(kept_groups(gs, res) =~= gs);
}

/// Reconciling groups in which every measurement already sits under the
/// country that geolocation gives for it (or whose lookup failed) relocates
/// nothing and leaves the groups as they were.
pub proof fn lemma_reconcile_settled(gs: Seq<GroupView>, res: Seq<Seq<Option<Seq<char>>>>)
    requires
        settled(gs, res),
    ensures
        all_moves(gs, res).len() == 0,
        reconciled(gs, res) == gs,
{
    lemma_all_moves_settled(gs, res);
}

/// The resolutions that geolocation `geo` gives for every measurement of `gs`,
/// by address; `None` stands for a failed lookup.
pub open spec fn resolutions(gs: Seq<GroupView>, geo: spec_fn(Seq<char>) -> Option<Seq<char>>) -> Seq<Seq<Option<Seq<char>>>> {
    Seq::new(gs.len(), |g: int| gs[g].1.map_values(|m: MeasurementView| geo(m.address)))
}

/// `m` may stay under country `k`: its lookup fails or gives `k`.
pub open spec fn fits(k: Seq<char>, m: MeasurementView, geo: spec_fn(Seq<char>) -> Option<Seq<char>>) -> bool {
    match geo(m.address) {
        Some(c) => c == k,
        None => true,
    }
}

pub open spec fn all_fit(gs: Seq<GroupView>, geo: spec_fn(Seq<char>) -> Option<Seq<char>>) -> bool {
    forall|g: int, j: int|
        0 <= g < gs.len() && 0 <= j < gs[g].1.len() ==> #[trigger] fits(gs[g].0, gs[g].1[j], geo)
}

/// `res` holds what `geo` gives for each measurement of `gs`.
pub open spec fn agrees(gs: Seq<GroupView>, res: Seq<Seq<Option<Seq<char>>>>, geo: spec_fn(Seq<char>) -> Option<Seq<char>>) -> bool {
    forall|g: int, j: int|
        0 <= g < gs.len() && 0 <= j < gs[g].1.len() ==> #[trigger] resolved_at(row(res, g), j) == geo(gs[g].1[j].address)
}

proof fn lemma_resolutions_agree(gs: Seq<GroupView>, geo: spec_fn(Seq<char>) -> Option<Seq<char>>)
    ensures
        agrees(gs, resolutions(gs, geo), geo),
{
}

proof fn lemma_fit_settled(gs: Seq<GroupView>, geo: spec_fn(Seq<char>) -> Option<Seq<char>>)
    requires
        all_fit(gs, geo),
    ensures
        settled(gs, resolutions(gs, geo)),
{
    let res = resolutions(gs, geo);
    assert forall|g: int, j: int| 0 <= g < gs.len() && 0 <= j < gs[g].1.len() implies !#[trigger] moves_away(
        gs[g].0,
        row(res, g),
        j,
    ) by {
        assert(resolved_at(row(res, g), j) == geo(gs[g].1[j].address));
        assert(fits(gs[g].0, gs[g].1[j], geo));
    }
}

proof fn lemma_group_kept_fit(
    k: Seq<char>,
    ms: Seq<MeasurementView>,
    r: Seq<Option<Seq<char>>>,
    geo: spec_fn(Seq<char>) -> Option<Seq<char>>,
)
    requires
        forall|j: int| 0 <= j < ms.len() ==> #[trigger] resolved_at(r, j) == geo(ms[j].address),
    ensures
        forall|i: int| 0 <= i < group_kept(k, ms, r).len() ==> #[trigger] fits(k, group_kept(k, ms, r)[i], geo),
        forall|i: int| 0 <= i < group_moves(k, ms, r).len() ==> geo(#[trigger] group_moves(k, ms, r)[i].1.address)
            == Some(group_moves(k, ms, r)[i].0),
    decreases ms.len(),
{
    if ms.len() > 0 {
        let d = ms.drop_last();
        assert forall|j: int| 0 <= j < d.len() implies #[trigger] resolved_at(r, j) == geo(d[j].address) by {
            assert(d[j] == ms[j]);
            assert(resolved_at(r, j) == geo(ms[j].address));
        }
        lemma_group_kept_fit(k, d, r, geo);
        let l = ms.len() - 1;
        assert(resolved_at(r, l) == geo(ms[l].address));
        let prev = group_kept(k, d, r);
        let kept = group_kept(k, ms, r);
        if !moves_away(k, r, l) {
            assert(kept == prev.push(ms.last()));
            assert forall|i: int| 0 <= i < kept.len() implies #[trigger] fits(k, kept[i], geo) by {
                if i < prev.len() {
                    assert(kept[i] == prev[i]);
                    assert(fits(k, prev[i], geo));
                } else {
                    assert(kept[i] == ms[l]);
                }
            }
        } else {
            assert(kept == prev);
        }
    }
}

proof fn lemma_all_moves_fit(gs: Seq<GroupView>, res: Seq<Seq<Option<Seq<char>>>>, geo: spec_fn(Seq<char>) -> Option<Seq<char>>)
    requires
        agrees(gs, res, geo),
    ensures
        forall|i: int| 0 <= i < all_moves(gs, res).len() ==> geo(#[trigger] all_moves(gs, res)[i].1.address)
            == Some(all_moves(gs, res)[i].0),
        all_fit(kept_groups(gs, res), geo),
    decreases gs.len(),
{
    if gs.len() > 0 {
        let d = gs.drop_last();
        assert(agrees(d, res, geo)) by {
            assert forall|g: int, j: int| 0 <= g < d.len() && 0 <= j < d[g].1.len() implies #[trigger] resolved_at(
                row(res, g),
                j,
            ) == geo(d[g].1[j].address) by {
                assert(d[g] == gs[g]);
                assert(resolved_at(row(res, g), j) == geo(gs[g].1[j].address));
            }
        }
        lemma_all_moves_fit(d, res, geo);
        let g = gs.len() - 1;
        assert forall|j: int| 0 <= j < gs[g].1.len() implies #[trigger] resolved_at(row(res, g), j) == geo(
            gs[g].1[j].address,
        ) by {
            assert(resolved_at(row(res, g), j) == geo(gs[g].1[j].address));
        }
        lemma_group_kept_fit(gs[g].0, gs[g].1, row(res, g), geo);
        let a = all_moves(d, res);
        let b = group_moves(gs[g].0, gs[g].1, row(res, g));
        assert forall|i: int| 0 <= i < all_moves(gs, res).len() implies geo(
            #[trigger] all_moves(gs, res)[i].1.address,
        ) == Some(all_moves(gs, res)[i].0) by {
            if i < a.len() {
                assert(all_moves(gs, res)[i] == a[i]);
            } else {
                assert(all_moves(gs, res)[i] == b[i - a.len()]);
            }
        }
    }
    let kg = kept_groups(gs, res);
    assert forall|g: int, j: int| 0 <= g < kg.len() && 0 <= j < kg[g].1.len() implies #[trigger] fits(
        kg[g].0,
        kg[g].1[j],
        geo,
    ) by {
        assert forall|jj: int| 0 <= jj < gs[g].1.len() implies #[trigger] resolved_at(row(res, g), jj) == geo(
            gs[g].1[jj].address,
        ) by {
            assert(resolved_at(row(res, g), jj) == geo(gs[g].1[jj].address));
        }
        lemma_group_kept_fit(gs[g].0, gs[g].1, row(res, g), geo);
        assert(fits(gs[g].0, group_kept(gs[g].0, gs[g].1, row(res, g))[j], geo));
    }
}

proof fn lemma_place_fit(gs: Seq<GroupView>, k: Seq<char>, m: MeasurementView, geo: spec_fn(Seq<char>) -> Option<Seq<char>>)
    requires
        all_fit(gs, geo),
        fits(k, m, geo),
    ensures
        all_fit(place(gs, k, m), geo),
{
    let p = place(gs, k, m);
    if has_key(gs, k) {
        let i = key_pos(gs, k);
        assert forall|g: int, j: int| 0 <= g < p.len() && 0 <= j < p[g].1.len() implies #[trigger] fits(
            p[g].0,
            p[g].1[j],
            geo,
        ) by {
            if g == i {
                if j < gs[i].1.len() {
                    assert(p[g].1[j] == gs[i].1[j]);
                    assert(fits(gs[i].0, gs[i].1[j], geo));
                }
            } else {
                assert(p[g] == gs[g]);
                assert(fits(gs[g].0, gs[g].1[j], geo));
            }
        }
    } else {
        assert forall|g: int, j: int| 0 <= g < p.len() && 0 <= j < p[g].1.len() implies #[trigger] fits(
            p[g].0,
            p[g].1[j],
            geo,
        ) by {
            if g < gs.len() {
                assert(p[g] == gs[g]);
                assert(fits(gs[g].0, gs[g].1[j], geo));
            }
        }
    }
}

proof fn lemma_place_all_fit(gs: Seq<GroupView>, moves: Seq<(Seq<char>, MeasurementView)>, geo: spec_fn(Seq<char>) -> Option<Seq<char>>)
    requires
        all_fit(gs, geo),
        forall|i: int| 0 <= i < moves.len() ==> geo(#[trigger] moves[i].1.address) == Some(moves[i].0),
    ensures
        all_fit(place_all(gs, moves), geo),
    decreases moves.len(),
{
    if moves.len() > 0 {
        let d = moves.drop_last();
        assert forall|i: int| 0 <= i < d.len() implies geo(#[trigger] d[i].1.address) == Some(d[i].0) by {
            assert(d[i] == moves[i]);
            assert(geo(moves[i].1.address) == Some(moves[i].0));
        }
        lemma_place_all_fit(gs, d, geo);
        let l = moves.len() - 1;
        assert(geo(moves[l].1.address) == Some(moves[l].0));
        lemma_place_fit(place_all(gs, d), moves.last().0, moves.last().1, geo);
    }
}

/// Reconciliation settles: where the countries come from one geolocation of
/// addresses, reconciling the result of a reconciliation once more relocates
/// nothing and leaves the groups as they are.
pub proof fn lemma_reconcile_twice(gs: Seq<GroupView>, geo: spec_fn(Seq<char>) -> Option<Seq<char>>)
    ensures
        all_moves(reconciled(gs, resolutions(gs, geo)), resolutions(reconciled(gs, resolutions(gs, geo)), geo)).len() == 0,
        reconciled(reconciled(gs, resolutions(gs, geo)), resolutions(reconciled(gs, resolutions(gs, geo)), geo))
            == reconciled(gs, resolutions(gs, geo)),
{
    let res = resolutions(gs, geo);
    lemma_resolutions_agree(gs, geo);
    lemma_all_moves_fit(gs, res, geo);
    lemma_place_all_fit(kept_groups(gs, res), all_moves(gs, res), geo);
    let once = reconciled(gs, res);
    lemma_fit_settled(once, geo);
    lemma_reconcile_settled(once, resolutions(once, geo));
}

} // verus!
