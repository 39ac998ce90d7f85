use vstd::prelude::*;

use crate::latlon::LatLon;

verus! {

/// The failure conditions of the route computation. A wrong argument
/// count and a malformed input file are fatal; a record that merely
/// lacks its geographic fields is recovered from by dropping the
/// record.
#[derive(Clone, Debug, PartialEq)]
pub enum RouteError {
    /// The problem is malformed: too few routable nodes to form a
    /// tour, or a wrong argument count.
    InvalidInput,
    /// The input file could not be parsed at all.
    ParseFailure,
    /// A record is present but lacks latitude, longitude or address;
    /// carries the record's title.
    MissingData { title: String },
}

/// An ingested point-of-interest record as one input row produces it:
/// title, location label and reference link are always present;
/// latitude, longitude (ten-millionths of a degree) and street
/// address may be absent.
#[derive(Clone, Debug)]
pub struct MaybeStatue {
    pub title: String,
    pub where_label: String,
    pub link: String,
    pub lat: Option<i64>,
    pub lon: Option<i64>,
    pub address: Option<String>,
}

/// A fully validated point-of-interest record: latitude, longitude
/// and address are all present.
#[derive(Clone, Debug)]
pub struct Statue {
    pub title: String,
    pub where_label: String,
    pub link: String,
    pub lat: i64,
    pub lon: i64,
    pub address: String,
}

impl MaybeStatue {
    /// All three optional fields are present.
    pub open spec fn spec_complete(&self) -> bool {
        self.lat is Some && self.lon is Some && self.address is Some
    }

    /// Latitude and longitude are present (the looser validity notion
    /// that admits a record to distance computations).
    pub open spec fn spec_has_position(&self) -> bool {
        self.lat is Some && self.lon is Some
    }

    /// The validated form of a complete record.
    pub open spec fn spec_validated(&self) -> Statue {
        Statue {
            title: self.title,
            where_label: self.where_label,
            link: self.link,
            lat: self.lat->0,
            lon: self.lon->0,
            address: self.address->0,
        }
    }

    /// Whether the record carries a position.
    pub fn has_position(&self) -> (b: bool)
        ensures
            b == self.spec_has_position(),
    {
        self.lat.is_some() && self.lon.is_some()
    }

    /// The record's coordinate, for records needed purely for
    /// distance or sorting purposes; absent without a position.
    pub fn position(&self) -> (p: Option<LatLon>)
        ensures
            self.spec_has_position() ==> p == Some(
                LatLon { lat: self.lat->0, lon: self.lon->0 },
            ),
            !self.spec_has_position() ==> p is None,
    {
        if self.lat.is_some() && self.lon.is_some() {
            Some(LatLon::new(*self.lat.as_ref().unwrap(), *self.lon.as_ref().unwrap()))
        } else {
            None
        }
    }

    /// Validation: succeeds exactly when latitude, longitude and
    /// address are all present; otherwise signals the missing data,
    /// naming the record's title.
    pub fn to_validated(self) -> (r: Result<Statue, RouteError>)
        ensures
            self.spec_complete() ==> r == Ok::<Statue, RouteError>(self.spec_validated()),
            !self.spec_complete() ==> r == Err::<Statue, RouteError>(
                RouteError::MissingData { title: self.title },
            ),
    {
        if self.lat.is_none() || self.lon.is_none() || self.address.is_none() {
            return Err(RouteError::MissingData { title: self.title });
        }
        Ok(
            Statue {
                title: self.title,
                where_label: self.where_label,
                link: self.link,
                lat: self.lat.unwrap(),
                lon: self.lon.unwrap(),
                address: self.address.unwrap(),
            },
        )
    }
}

impl Statue {
    /// The record's coordinate.
    pub fn latlon(&self) -> (p: LatLon)
        ensures
            p == (LatLon { lat: self.lat, lon: self.lon }),
    {
        LatLon::new(self.lat, self.lon)
    }
}

/// The validated records a batch of ingested records yields, in input
/// order: exactly the complete records, each in validated form.
pub open spec fn validated_of(rs: Seq<MaybeStatue>) -> Seq<Statue>
    decreases rs.len(),
{
    if rs.len() == 0 {
        Seq::empty()
    } else {
        validated_of(rs.drop_last()) + if rs.last().spec_complete() {
            seq![rs.last().spec_validated()]
        } else {
            Seq::empty()
        }
    }
}

/// How many records of the batch lack latitude, longitude or address.
pub open spec fn incomplete_count(rs: Seq<MaybeStatue>) -> int
    decreases rs.len(),
{
    if rs.len() == 0 {
        0
    } else {
        incomplete_count(rs.drop_last()) + if rs.last().spec_complete() {
            0int
        } else {
            1int
        }
    }
}

/// Validation filtering drops exactly the incomplete records: the
/// count of dropped records equals the count of records lacking
/// latitude, longitude or address, and only complete records survive.
pub proof fn lemma_validation_filtering(rs: Seq<MaybeStatue>)
    ensures
        validated_of(rs).len() + incomplete_count(rs) == rs.len(),
        0 <= incomplete_count(rs) <= rs.len(),
    decreases rs.len(),
{
    if rs.len() > 0 {
        lemma_validation_filtering(rs.drop_last());
    }
}

/// Validates a whole batch: the complete records survive, in input
/// order and in validated form; the records lacking latitude,
/// longitude or address are silently dropped.
pub fn validate_all(records: Vec<MaybeStatue>) -> (r: Vec<Statue>)
    ensures
        r@ == validated_of(records@),
{
    let ghost rs = records@;
    let mut r: Vec<Statue> = Vec::new();
    let mut records = records;
    let mut idx: usize = 0;
    let total = records.len();
    proof {
        assert(total as int == rs.len());
        assert(rs.take(0) =~= Seq::<MaybeStatue>::empty());
    }
    while records.len() > 0
        invariant
            rs.len() <= usize::MAX,
            records@ == rs.skip(idx as int),
            idx <= rs.len(),
            r@ == validated_of(rs.take(idx as int)),
        decreases rs.len() - idx,
    {
        let rec = records.remove(0);
        proof {
            assert(rec == rs[idx as int]);
            assert(records@ =~= rs.skip(idx as int + 1));
            assert(rs.take(idx as int + 1).drop_last() =~= rs.take(idx as int));
            assert(rs.take(idx as int + 1).last() == rs[idx as int]);
        }
        match rec.to_validated() {
            Ok(statue) => {
                r.push(statue);
                proof {
                    assert(r@ =~= validated_of(rs.take(idx as int + 1)));
                }
            },
            Err(_) => {
                proof {
                    assert(r@ =~= validated_of(rs.take(idx as int + 1)));
                }
            },
        }
        idx += 1;
    }
    proof {
        assert(rs.take(rs.len() as int) =~= rs);
    }
    r
}

/// Where a pair lands in an ascending-by-key list: before the first
/// strictly larger key, after every key less than or equal to its
/// own. This is where a stable sort puts a later-arriving record.
pub open spec fn insert_pair(p: (u64, Statue), s: Seq<(u64, Statue)>) -> Seq<(u64, Statue)>
    decreases s.len(),
{
    if s.len() == 0 {
        seq![p]
    } else if p.0 < s[0].0 {
        seq![p] + s
    } else {
        seq![s[0]] + insert_pair(p, s.drop_first())
    }
}

/// The keyed records in ascending key order, records of equal key in
/// input order.
pub open spec fn sort_pairs(s: Seq<(u64, Statue)>) -> Seq<(u64, Statue)>
    decreases s.len(),
{
    if s.len() == 0 {
        Seq::empty()
    } else {
        insert_pair(s.last(), sort_pairs(s.drop_last()))
    }
}

/// Inserting a pair at the first position whose key is strictly
/// larger splits the list there.
proof fn lemma_insert_pair_split(p: (u64, Statue), s: Seq<(u64, Statue)>, q: int)
    requires
        0 <= q <= s.len(),
        forall|u: int| 0 <= u < q ==> (#[trigger] s[u]).0 <= p.0,
        q < s.len() ==> s[q].0 > p.0,
    ensures
        insert_pair(p, s) == s.take(q) + seq![p] + s.skip(q),
    decreases q,
{
    if q == 0 {
        if s.len() == 0 {
            assert(insert_pair(p, s) =~= s.take(0) + seq![p] + s.skip(0));
        } else {
            assert(s[0].0 > p.0);
            assert(insert_pair(p, s) =~= s.take(0) + seq![p] + s.skip(0));
        }
    } else {
        assert(s[0].0 <= p.0);
        let rest = s.drop_first();
        assert(forall|u: int| 0 <= u < q - 1 ==> (#[trigger] rest[u]).0 == s[u + 1].0);
        lemma_insert_pair_split(p, rest, q - 1);
        assert(insert_pair(p, s) == seq![s[0]] + insert_pair(p, rest));
        assert(seq![s[0]] + (rest.take(q - 1) + seq![p] + rest.skip(q - 1)) =~= s.take(q)
            + seq![p] + s.skip(q));
    }
}

/// The candidate sort-and-truncate step: orders the validated records
/// by their given keys (ascending, equal keys keeping input order,
/// each key belonging to the record at the same position) and keeps
/// at most `bound` of the nearest. With no record to keep, the
/// problem has too few routable nodes: InvalidInput.
pub fn select_candidates(statues: Vec<Statue>, keys: Vec<u64>, bound: usize) -> (r: Result<
    Vec<Statue>,
    RouteError,
>)
    requires
        keys@.len() == statues@.len(),
    ensures
        ({
            let sorted = sort_pairs(keys@.zip_with(statues@));
            let m = if bound <= statues@.len() {
                bound as int
            } else {
                statues@.len() as int
            };
            &&& m >= 1 ==> (r is Ok && r->Ok_0@ == sorted.take(m).map_values(
                |p: (u64, Statue)| p.1,
            ))
            &&& m == 0 ==> r == Err::<Vec<Statue>, RouteError>(RouteError::InvalidInput)
        }),
{
    let ghost keys0 = keys@;
    let ghost statues0 = statues@;
    let mut statues = statues;
    let mut pairs: Vec<(u64, Statue)> = Vec::new();
    let mut idx: usize = 0;
    let total = statues.len();
    proof {
        assert(keys0.take(0).zip_with(statues0.take(0)) =~= Seq::<(u64, Statue)>::empty());
    }
    while statues.len() > 0
        invariant
            keys0.len() == statues0.len(),
            statues0.len() == total,
            keys@ == keys0,
            statues@ == statues0.skip(idx as int),
            idx <= total,
            pairs@ == keys0.take(idx as int).zip_with(statues0.take(idx as int)),
        decreases statues0.len() - idx,
    {
        let statue = statues.remove(0);
        let key = keys[idx];
        pairs.push((key, statue));
        proof {
            assert(statues@ =~= statues0.skip(idx as int + 1));
            assert(pairs@ =~= keys0.take(idx as int + 1).zip_with(statues0.take(idx as int + 1)));
        }
        idx += 1;
    }
    proof {
        assert(keys0.take(total as int) =~= keys0);
        assert(statues0.take(total as int) =~= statues0);
    }
    let ghost all_pairs = pairs@;

    let mut sorted: Vec<(u64, Statue)> = Vec::new();
    let mut pairs = pairs;
    let mut t: usize = 0;
    proof {
        assert(sort_pairs(all_pairs.take(0)) =~= Seq::<(u64, Statue)>::empty());
    }
    while pairs.len() > 0
        invariant
            all_pairs.len() == total,
            pairs@ == all_pairs.skip(t as int),
            t <= total,
            sorted@ == sort_pairs(all_pairs.take(t as int)),
            sorted@.len() == t,
        decreases all_pairs.len() - t,
    {
        let p = pairs.remove(0);
        proof {
            assert(p == all_pairs[t as int]);
            assert(pairs@ =~= all_pairs.skip(t as int + 1));
        }
        let mut q: usize = 0;
        while q < sorted.len() && sorted[q].0 <= p.0
            invariant
                q <= sorted@.len(),
                forall|u: int| 0 <= u < q ==> (#[trigger] sorted@[u]).0 <= p.0,
            decreases sorted@.len() - q,
        {
            q += 1;
        }
        let ghost sorted_before = sorted@;
        sorted.insert(q, p);
        proof {
            lemma_insert_pair_split(p, sorted_before, q as int);
            assert(sorted@ =~= sorted_before.take(q as int) + seq![p] + sorted_before.skip(
                q as int,
            ));
            assert(all_pairs.take(t as int + 1).drop_last() =~= all_pairs.take(t as int));
            assert(all_pairs.take(t as int + 1).last() == p);
            assert(sorted@ == insert_pair(p, sort_pairs(all_pairs.take(t as int))));
        }
        t += 1;
    }
    proof {
        assert(all_pairs.take(total as int) =~= all_pairs);
    }

    let m = if bound <= total {
        bound
    } else {
        total
    };
    if m == 0 {
        return Err(RouteError::InvalidInput);
    }
    let ghost sorted_all = sorted@;
    let mut sorted = sorted;
    let mut out: Vec<Statue> = Vec::new();
    let mut u: usize = 0;
    while u < m
        invariant
            m <= total,
            sorted_all.len() == total,
            sorted@ == sorted_all.skip(u as int),
            u <= m,
            out@ =~= sorted_all.take(u as int).map_values(|p: (u64, Statue)| p.1),
        decreases m - u,
    {
        let p = sorted.remove(0);
        out.push(p.1);
        proof {
            assert(p == sorted_all[u as int]);
            assert(sorted@ =~= sorted_all.skip(u as int + 1));
            assert(out@ =~= sorted_all.take(u as int + 1).map_values(|p: (u64, Statue)| p.1));
        }
        u += 1;
    }
    Ok(out)
}

} // verus!
