//! Browsing state for the name list: the filter settings and the rules
//! that pick which entries are shown and how unrated names are rated
//! when stored ratings are first applied.
use vstd::prelude::*;
use vstd::string::StringSliceAdditionalSpecFns;
use vstd::slice::slice_index_get;
use vstd::utf8::encode_utf8;
use crate::codec::NameTable;
use crate::names::{bucket_of, total_of, Info, NameEntry, Rating};

verus! {

/// Which entries the rating filter lets through.
#[derive(PartialEq, Eq, Debug, Clone, Copy, Structural)]
pub enum RatingFilter {
    /// Every entry.
    Any,
    /// Entries that carry some rating.
    Rating,
    /// Entries that carry no rating.
    NoRating,
    /// Entries rated exactly this.
    Is(Rating),
}

/// Whether a rating passes the filter.
pub open spec fn rating_matches(filter: RatingFilter, rating: Option<Rating>) -> bool {
    match filter {
        RatingFilter::Any => true,
        RatingFilter::Rating => rating is Some,
        RatingFilter::NoRating => rating is None,
        RatingFilter::Is(r) => rating == Some(r),
    }
}

/// `needle` sits in `hay` starting at position `i`.
pub open spec fn is_substring_at(hay: Seq<u8>, needle: Seq<u8>, i: int) -> bool {
    0 <= i && i + needle.len() <= hay.len() && hay.subrange(i, i + needle.len()) == needle
}

/// `needle` sits somewhere in `hay`.
pub open spec fn contains_bytes(hay: Seq<u8>, needle: Seq<u8>) -> bool {
    exists|i: int| is_substring_at(hay, needle, i)
}

/// Whether `part`'s bytes sit at position `i` of `hay`'s bytes.
fn match_at(hay: &[u8], part: &[u8], i: usize) -> (r: bool)
    requires
        i + part@.len() <= hay@.len(),
        hay@.len() <= usize::MAX,
    ensures
        r == is_substring_at(hay@, part@, i as int),
{
    let pn = part.len();
    let mut j: usize = 0;
    while j < pn
        invariant
            i + pn <= hay@.len(),
            hay@.len() <= usize::MAX,
            pn == part@.len(),
            j <= pn,
            forall|m: int| 0 <= m < j ==> hay@[i + m] == part@[m],
        decreases pn - j,
    {
        if *slice_index_get(hay, i + j) != *slice_index_get(part, j) {
            proof {
                if hay@.subrange(i as int, i as int + pn as int) == part@ {
                    assert(hay@.subrange(i as int, i as int + pn as int)[j as int] == part@[
                        j as int
                    ]);
                }
            }
            return false;
        }
        j = j + 1;
    }
    proof {
        assert(hay@.subrange(i as int, i as int + pn as int) =~= part@);
    }
    true
}

/// Whether `part` occurs in `hay`, compared byte for byte, as the
/// entry filter's text search does.
pub fn contains_substring(hay: &str, part: &str) -> (r: bool)
    ensures
        r == contains_bytes(encode_utf8(hay@), encode_utf8(part@)),
{
    let h = hay.as_bytes();
    let p = part.as_bytes();
    proof {
        assert(h@ == encode_utf8(hay@));
        assert(p@ == encode_utf8(part@));
    }
    let hn = h.len();
    let pn = p.len();
    if pn > hn {
        return false;
    }
    if pn == 0 {
        proof {
            assert(h@.subrange(0, 0) =~= p@);
            assert(is_substring_at(h@, p@, 0));
        }
        return true;
    }
    let mut i: usize = 0;
    while i <= hn - pn
        invariant
            h@ == encode_utf8(hay@),
            p@ == encode_utf8(part@),
            hn == h@.len(),
            pn == p@.len(),
            1 <= pn <= hn,
            hn <= usize::MAX,
            i <= hn - pn + 1,
            forall|k: int| 0 <= k < i ==> !is_substring_at(h@, p@, k),
        decreases hn - pn + 1 - i,
    {
        if match_at(h, p, i) {
            return true;
        }
        i = i + 1;
    }
    false
}

/// A name entry's statistics and the filter settings that pick it: the
/// name's byte length is capped, the sex byte must be the one of
/// interest, the search text must occur in the name, and the rating
/// must pass the rating filter.
pub open spec fn spec_entry_matches(
    e: NameEntry,
    part: Seq<char>,
    max_len: int,
    filter: RatingFilter,
) -> bool {
    &&& encode_utf8(e.name@).len() <= max_len
    &&& e.sex == 1
    &&& contains_bytes(encode_utf8(e.name@), encode_utf8(part))
    &&& rating_matches(filter, e.rating)
}

/// The browsing state: the aggregated entries and the user's filter
/// settings, with the index of the entry on display.
pub struct NamesApp {
    pub part: String,
    pub current: usize,
    pub names: Vec<NameEntry>,
    pub max_len: usize,
    pub rating_filter: RatingFilter,
}

impl NamesApp {
    /// Whether one entry passes the current filter settings.
    pub fn entry_matches(&self, e: &NameEntry) -> (r: bool)
        ensures
            r == spec_entry_matches(*e, self.part@, self.max_len as int, self.rating_filter),
    {
        let rating_match = match self.rating_filter {
            RatingFilter::Any => true,
            RatingFilter::Rating => e.rating.is_some(),
            RatingFilter::NoRating => e.rating.is_none(),
            RatingFilter::Is(r) => match e.rating {
                Some(x) => x == r,
                None => false,
            },
        };
        e.name.as_str().as_bytes().len() <= self.max_len && e.sex == 1 && contains_substring(
            e.name.as_str(),
            self.part.as_str(),
        ) && rating_match
    }

    /// The positions of the entries that pass the current filter
    /// settings, in display order: every listed entry passes, every
    /// passing entry is listed, and positions come out ascending.
    pub fn filtered_names(&self) -> (r: Vec<usize>)
        ensures
            forall|a: int, b: int| 0 <= a < b < r@.len() ==> r@[a] < r@[b],
            forall|k: int|
                0 <= k < r@.len() ==> r@[k] < self.names@.len() && spec_entry_matches(
                    self.names@[r@[k] as int],
                    self.part@,
                    self.max_len as int,
                    self.rating_filter,
                ),
            forall|idx: usize|
                idx < self.names@.len() && spec_entry_matches(
                    self.names@[idx as int],
                    self.part@,
                    self.max_len as int,
                    self.rating_filter,
                ) ==> r@.contains(idx),
    {
        let mut r: Vec<usize> = Vec::new();
        let n = self.names.len();
        let mut i: usize = 0;
        while i < n
            invariant
                n == self.names@.len(),
                i <= n,
                forall|a: int, b: int| 0 <= a < b < r@.len() ==> r@[a] < r@[b],
                forall|k: int| 0 <= k < r@.len() ==> r@[k] < i,
                forall|k: int|
                    0 <= k < r@.len() ==> spec_entry_matches(
                        self.names@[r@[k] as int],
                        self.part@,
                        self.max_len as int,
                        self.rating_filter,
                    ),
                forall|idx: usize|
                    idx < i && spec_entry_matches(
                        self.names@[idx as int],
                        self.part@,
                        self.max_len as int,
                        self.rating_filter,
                    ) ==> r@.contains(idx),
            decreases n - i,
        {
            if self.entry_matches(&self.names[i]) {
                let ghost r0 = r@;
                r.push(i);
                proof {
                    assert forall|idx: usize|
                        idx < i + 1 && spec_entry_matches(
                            self.names@[idx as int],
                            self.part@,
                            self.max_len as int,
                            self.rating_filter,
                        ) implies r@.contains(idx) by {
                        if idx < i {
                            assert(r0.contains(idx));
                            let k = choose|k: int| 0 <= k < r0.len() && r0[k] == idx;
                            assert(r@[k] == idx);
                        } else {
                            assert(r@[r@.len() - 1] == idx);
                        }
                    }
                }
            }
            i = i + 1;
        }
        r
    }
}

/// Aggregate every record of a decoded table into a display entry, in
/// table order: each entry carries its record's name and sex, the total
/// over all years, and the eight five-year buckets, with no rating and
/// no comments yet.
pub fn build_entries(t: &NameTable) -> (r: Vec<NameEntry>)
    ensures
        r@.len() == t.records().len(),
        forall|i: int|
            0 <= i < r@.len() ==> {
                let rec = t.records()[i];
                &&& (#[trigger] r@[i]).name@ == rec.name
                &&& r@[i].sex == rec.sex
                &&& r@[i].total == total_of(rec.counts)
                &&& forall|b: int| 0 <= b < 8 ==> r@[i].year_count@[b] == bucket_of(rec.counts, b)
                &&& r@[i].comments@.len() == 0
                &&& r@[i].rating is None
            },
{
    let mut r: Vec<NameEntry> = Vec::new();
    let n = t.len();
    let mut i: usize = 0;
    while i < n
        invariant
            n == t.records().len(),
            i <= n,
            r@.len() == i,
            forall|k: int|
                0 <= k < i ==> {
                    let rec = t.records()[k];
                    &&& (#[trigger] r@[k]).name@ == rec.name
                    &&& r@[k].sex == rec.sex
                    &&& r@[k].total == total_of(rec.counts)
                    &&& forall|b: int|
                        0 <= b < 8 ==> r@[k].year_count@[b] == bucket_of(rec.counts, b)
                    &&& r@[k].comments@.len() == 0
                    &&& r@[k].rating is None
                },
        decreases n - i,
    {
        let (name, info) = t.entry_at(i);
        let owned: Info = *info;
        r.push(NameEntry::new(name.clone(), owned));
        i = i + 1;
    }
    r
}

/// Give an entry that carries no rating its starting rating: a name of
/// fewer than two or more than five bytes, or one with a hyphen, is
/// bad out of hand; otherwise the stored rating, if any, is taken. An
/// entry already rated keeps its rating. Statistics and comments stay
/// untouched.
pub fn apply_initial_rating(e: &mut NameEntry, stored: Option<Rating>)
    ensures
        final(e).rating == (if old(e).rating is Some {
            old(e).rating
        } else {
            spec_initial_rating(encode_utf8(old(e).name@), stored)
        }),
        final(e).name == old(e).name,
        final(e).year_count == old(e).year_count,
        final(e).sex == old(e).sex,
        final(e).total == old(e).total,
        final(e).comments == old(e).comments,
{
    if e.rating.is_some() {
        return ;
    }
    let name_len = e.name.as_str().as_bytes().len();
    if name_len >= 6 || name_len < 2 || has_hyphen(e.name.as_str()) {
        e.rating = Some(Rating::Bad);
    } else {
        e.rating = stored;
    }
}

/// The rating an unrated name starts out with.
pub open spec fn spec_initial_rating(name_bytes: Seq<u8>, stored: Option<Rating>) -> Option<
    Rating,
> {
    if name_bytes.len() >= 6 || name_bytes.len() < 2 || name_bytes.contains('-' as u8) {
        Some(Rating::Bad)
    } else {
        stored
    }
}

/// Whether the name holds an ASCII hyphen.
fn has_hyphen(name: &str) -> (r: bool)
    ensures
        r == encode_utf8(name@).contains('-' as u8),
{
    let b = name.as_bytes();
    proof {
        assert(b@ == encode_utf8(name@));
    }
    let n = b.len();
    let mut i: usize = 0;
    while i < n
        invariant
            n == b@.len(),
            i <= n,
            b@ == encode_utf8(name@),
            forall|k: int| 0 <= k < i ==> b@[k] != '-' as u8,
        decreases n - i,
    {
        if *slice_index_get(b, i) == 45u8 {
            proof {
                assert(b@[i as int] == '-' as u8);
            }
            return true;
        }
        i = i + 1;
    }
    proof {
        assert(!b@.contains('-' as u8));
    }
    false
}

} // verus!
