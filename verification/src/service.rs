//! The public-facing lookup service.
//!
//! Owns one immutable range table per address family. A lookup converts
//! the address to its ordinal, queries the matching table, and derives EU
//! membership; it reads the published tables only. A refresh builds a new
//! table completely off to the side and swaps it in whole, so a lookup is
//! always answered from exactly one full table generation.

use vstd::prelude::*;
use crate::codec::{AddressFamily, IpAddress};
use crate::eu::{eu_code_pair, is_eu_code};
use crate::loader::{
    DatasetFormatError, all_rows_parse, dataset_ranges, family_max, load_range_table,
};
use crate::table::{
    CountryCode, CountryRange, RangeTable, has_overlapping_pair, ranges_wf, sorted_by_start,
    table_lookup,
};

verus! {

/// Why a refresh did not install a new table.
#[derive(Clone, Copy, Debug, PartialEq, Eq, Structural)]
pub enum RefreshError {
    /// The dataset could not be fetched; the previous table stays.
    FetchFailed,
    /// The dataset was rejected; the family now serves empty results
    /// rather than stale or corrupt data.
    BadDataset(DatasetFormatError),
}

/// The outcome of refreshing one family's dataset.
#[derive(Clone, Copy, Debug, PartialEq, Eq, Structural)]
pub enum RefreshOutcome {
    /// A new table was installed.
    Updated,
    /// The dataset loaded to exactly the table already installed.
    Unchanged,
    /// Nothing usable arrived; see the reason.
    Failed(RefreshError),
}

/// The result of one address lookup. A missing country code is a normal
/// outcome, not an error; it never makes an EU member.
#[derive(Clone, Copy, Debug)]
pub struct LookupResult {
    pub family: AddressFamily,
    pub ordinal: u128,
    pub country_code: Option<CountryCode>,
    pub is_eu: bool,
}

/// The core lookup service: one range table per address family.
pub struct CountryLookupService {
    pub v4_table: RangeTable,
    pub v6_table: RangeTable,
}

impl CountryLookupService {
    /// The rows of the family's published table.
    pub open spec fn family_view(self, family: AddressFamily) -> Seq<CountryRange> {
        match family {
            AddressFamily::V4 => self.v4_table@,
            AddressFamily::V6 => self.v6_table@,
        }
    }

    /// What a lookup returns, as a function of the published tables alone.
    pub open spec fn spec_lookup(self, address: IpAddress) -> LookupResult {
        let code = table_lookup(self.family_view(address.family()), address.ordinal());
        LookupResult {
            family: address.family(),
            ordinal: address.ordinal() as u128,
            country_code: code,
            is_eu: match code {
                Some(c) => is_eu_code(c.first, c.second),
                None => false,
            },
        }
    }

    /// A service with no data: every lookup misses.
    pub fn empty() -> (r: CountryLookupService)
        ensures
            r.v4_table@ =~= Seq::<CountryRange>::empty(),
            r.v6_table@ =~= Seq::<CountryRange>::empty(),
    {
        CountryLookupService { v4_table: RangeTable::empty(), v6_table: RangeTable::empty() }
    }

    /// A service over the two given tables.
    pub fn new(v4_table: RangeTable, v6_table: RangeTable) -> (r: CountryLookupService)
        ensures
            r.v4_table == v4_table,
            r.v6_table == v6_table,
    {
        CountryLookupService { v4_table, v6_table }
    }

    /// Resolves an address to family, ordinal, country code and EU
    /// membership. Side-effect-free; a miss yields no code and no EU flag.
    pub fn lookup(&self, address: &IpAddress) -> (r: LookupResult)
        ensures
            r == self.spec_lookup(*address),
    {
        let ordinal = address.to_ordinal();
        let family = match address {
            IpAddress::V4(_) => AddressFamily::V4,
            IpAddress::V6(_) => AddressFamily::V6,
        };
        let code = match address {
            IpAddress::V4(_) => self.v4_table.lookup(ordinal),
            IpAddress::V6(_) => self.v6_table.lookup(ordinal),
        };
        let is_eu = match code {
            Some(c) => eu_code_pair(c.first, c.second),
            None => false,
        };
        LookupResult { family, ordinal, country_code: code, is_eu }
    }

    /// Applies one family's refreshed dataset. `None` (the fetch failed)
    /// keeps the family's previous table; a dataset that fails to load
    /// empties the family's table; a valid dataset replaces it whole. The
    /// other family's table is never touched.
    pub fn refresh_family(&mut self, family: AddressFamily, fetched: Option<&Vec<u8>>) -> (r:
        RefreshOutcome)
        ensures
            family == AddressFamily::V4 ==> final(self).v6_table@ == old(self).v6_table@,
            family == AddressFamily::V6 ==> final(self).v4_table@ == old(self).v4_table@,
            match fetched {
                None => r == RefreshOutcome::Failed(RefreshError::FetchFailed) && final(self).family_view(family) == old(self).family_view(family),
                Some(data) => ({
                    let maxi = family_max(family);
                    let rows_ok = all_rows_parse(data@, maxi);
                    let no_overlap = !has_overlapping_pair(dataset_ranges(data@, maxi));
                    if rows_ok && no_overlap {
                        &&& ranges_wf(final(self).family_view(family))
                        &&& sorted_by_start(final(self).family_view(family))
                        &&& final(self).family_view(family).to_multiset() == dataset_ranges(
                            data@,
                            maxi,
                        ).to_multiset()
                        &&& (r == RefreshOutcome::Updated || r == RefreshOutcome::Unchanged)
                        &&& ((r == RefreshOutcome::Unchanged) <==> final(self).family_view(family)
                            == old(self).family_view(family))
                    } else {
                        &&& final(self).family_view(family) =~= Seq::<CountryRange>::empty()
                        &&& r == RefreshOutcome::Failed(
                            RefreshError::BadDataset(
                                if !rows_ok {
                                    DatasetFormatError::MalformedRow
                                } else {
                                    DatasetFormatError::OverlappingRanges
                                },
                            ),
                        )
                    }
                }),
            },
    {
        match fetched {
            None => RefreshOutcome::Failed(RefreshError::FetchFailed),
            Some(data) => {
                match load_range_table(data.as_slice(), family) {
                    Ok(t) => {
                        let unchanged = match family {
                            AddressFamily::V4 => self.v4_table.same_rows(&t),
                            AddressFamily::V6 => self.v6_table.same_rows(&t),
                        };
                        match family {
                            AddressFamily::V4 => {
                                self.v4_table = t;
                            },
                            AddressFamily::V6 => {
                                self.v6_table = t;
                            },
                        }
                        if unchanged {
                            RefreshOutcome::Unchanged
                        } else {
                            RefreshOutcome::Updated
                        }
                    },
                    Err(e) => {
                        match family {
                            AddressFamily::V4 => {
                                self.v4_table = RangeTable::empty();
                            },
                            AddressFamily::V6 => {
                                self.v6_table = RangeTable::empty();
                            },
                        }
                        RefreshOutcome::Failed(RefreshError::BadDataset(e))
                    },
                }
            },
        }
    }
}

/// Law: a lookup is a pure function of the published table generation.
/// Two service states holding the same tables answer every address
/// identically, so a lookup racing a table swap is answered from exactly
/// one full generation — the old tables or the new, never a mixture.
pub proof fn lemma_lookup_reads_one_generation(
    s1: CountryLookupService,
    s2: CountryLookupService,
    address: IpAddress,
)
    requires
        s1.v4_table@ == s2.v4_table@,
        s1.v6_table@ == s2.v6_table@,
    ensures
        s1.spec_lookup(address) == s2.spec_lookup(address),
{
}

/// Law: a lookup depends only on its own family's table. Refreshing one
/// family — successfully or not — leaves every lookup in the other family
/// unchanged.
pub proof fn lemma_lookup_depends_on_own_family(
    s1: CountryLookupService,
    s2: CountryLookupService,
    address: IpAddress,
)
    requires
        address.family() == AddressFamily::V4 ==> s1.v4_table@ == s2.v4_table@,
        address.family() == AddressFamily::V6 ==> s1.v6_table@ == s2.v6_table@,
    ensures
        s1.spec_lookup(address) == s2.spec_lookup(address),
{
}

} // verus!
