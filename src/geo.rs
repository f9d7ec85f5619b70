//! The geolocation cache: one record per address for the life of a run,
//! filled from the outcomes of lookups that the caller performs.
use vstd::prelude::*;

verus! {

/// What geolocation observed of an address.
pub struct GeoRecord {
    /// Two-letter country code.
    pub country: String,
    /// City label, where the service gave one.
    pub city: Option<String>,
}

pub type GeoRecordView = (Seq<char>, Option<Seq<char>>);

impl View for GeoRecord {
    type V = GeoRecordView;

    open spec fn view(&self) -> GeoRecordView {
        (
            self.country@,
            match self.city {
                Some(c) => Some(c@),
                None => None,
            },
        )
    }
}

impl GeoRecord {
    /// A copy of the record.
    pub fn duplicate(&self) -> (r: GeoRecord)
        ensures
            r@ == self@,
    {
        let city = match &self.city {
            Some(c) => Some(c.clone()),
            None => None,
        };
        GeoRecord { country: self.country.clone(), city }
    }
}

/// A failed lookup (network, quota or authorisation error, malformed answer).
pub struct LookupError {
    pub message: String,
}

/// The record of address `a` in `s`: the latest entry for it.
pub open spec fn find(s: Seq<(Seq<char>, GeoRecordView)>, a: Seq<char>) -> Option<GeoRecordView>
    decreases s.len(),
{
    if s.len() == 0 {
        None
    } else if s.last().0 == a {
        Some(s.last().1)
    } else {
        find(s.drop_last(), a)
    }
}

/// Records of addresses, kept for the life of the cache; failed lookups are
/// not recorded.
pub struct GeoCache {
    entries: Vec<(String, GeoRecord)>,
}

impl View for GeoCache {
    type V = Seq<(Seq<char>, GeoRecordView)>;

    closed spec fn view(&self) -> Seq<(Seq<char>, GeoRecordView)> {
        self.entries@.map_values(|e: (String, GeoRecord)| (e.0@, e.1@))
    }
}

impl GeoCache {
    /// The record cached for address `a`.
    pub open spec fn cached(&self, a: Seq<char>) -> Option<GeoRecordView> {
        find(self@, a)
    }

    /// An empty cache.
    pub fn new() -> (r: GeoCache)
        ensures
            forall|a: Seq<char>| r.cached(a) is None,
    {
        let r = GeoCache { entries: Vec::new() };
        assert(r@ =~= Seq::<(Seq<char>, GeoRecordView)>::empty());
        r
    }

    /// The record cached for `address`; `None` means that a lookup is due.
    pub fn lookup(&self, address: &String) -> (r: Option<GeoRecord>)
        ensures
            r is None <==> self.cached(address@) is None,
            r matches Some(rec) ==> self.cached(address@) == Some(rec@),
    {
        let ghost s = self@;
        let mut i: usize = self.entries.len();
        assert(s.take(i as int) =~= s);
        while i > 0
            invariant
                i <= s.len(),
                s == self@,
                find(s, address@) == find(s.take(i as int), address@),
            decreases i,
        {
            let ghost t = s.take(i as int);
            assert(t.drop_last() =~= s.take(i - 1));
            let e = &self.entries[i - 1];
            assert(t.last() == (e.0@, e.1@));
            if e.0 == *address {
                return Some(e.1.duplicate());
            }
            i = i - 1;
        }
        None
    }

    /// Takes in the outcome of a lookup of `address`. A record already cached
    /// stays and is returned as it is; otherwise a successful outcome is
    /// cached and returned, and a failure is returned and leaves the cache
    /// unchanged, so that a later call looks the address up again.
    pub fn record(&mut self, address: &String, outcome: Result<GeoRecord, LookupError>) -> (r: Result<GeoRecord, LookupError>)
        ensures
            old(self).cached(address@) matches Some(rec) ==> r matches Ok(x) && x@ == rec,
            old(self).cached(address@) is None ==> match outcome {
                Ok(rec) => r matches Ok(x) && x@ == rec@,
                Err(e) => r matches Err(x) && x.message@ == e.message@,
            },
            forall|b: Seq<char>| b != address@ ==> #[trigger] final(self).cached(b) == old(self).cached(b),
            final(self).cached(address@) == (if old(self).cached(address@) is None && outcome is Ok {
                Some(outcome->Ok_0@)
            } else {
                old(self).cached(address@)
            }),
    {
        match self.lookup(address) {
            Some(rec) => Ok(rec),
            None => match outcome {
                Ok(rec) => {
                    let ghost s = self@;
                    let kept = rec.duplicate();
                    self.entries.push((address.clone(), rec));
                    assert(self@ =~= s.push((address@, kept@)));
                    assert(self@.drop_last() =~= s);
                    Ok(kept)
                },
                Err(e) => Err(e),
            },
        }
    }
}

} // verus!
