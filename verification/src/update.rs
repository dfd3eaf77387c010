//! Scan writer: the byte encoding of a database, the natural order that scan
//! entries follow, and the grouping of volumes by storage device.
//!
//! The walker hands the writer the visited pathnames in order; the writer
//! prefix-shares each against the previous and emits the record stream that
//! the reader of [`crate::locate`] decodes.

use crate::codec::common_prefix_len;
use crate::codec::vlq_decode;
use crate::codec::delta_encode;
use crate::codec::encode_vlq;
use crate::codec::lemma_common_prefix_len;
use crate::codec::lemma_vlq_round_trip;
use crate::codec::vlq_encode;
use crate::config::settings_byte;
use crate::config::Settings;
use crate::locate::db_magic;
use crate::locate::parse_db;
use crate::locate::parse_entries;
use crate::locate::parse_record;
use vstd::prelude::*;

verus! {

/// One entry handed to the writer: a full pathname and an optional size.
pub struct ScanEntry {
    /// The pathname, as bytes.
    pub path: Vec<u8>,
    /// The file size, if known and wanted.
    pub size: Option<u64>,
}

/// The mathematical form of an entry list.
pub open spec fn entries_view(s: Seq<ScanEntry>) -> Seq<(Seq<u8>, Option<u64>)> {
    s.map(|i: int, e: ScanEntry| (e.path@, e.size))
}

/// The wire form of an absent or present size: zero means absent.
pub open spec fn size_plus_one(size: Option<u64>) -> u64 {
    match size {
        None => 0,
        Some(s) => (s + 1) as u64,
    }
}

/// The bytes of one record: how much of the previous pathname to discard,
/// the suffix length, the suffix, and the size field when sizes are stored.
pub open spec fn encode_record(
    prev: Seq<u8>,
    curr: Seq<u8>,
    size: Option<u64>,
    with_sizes: bool,
) -> Seq<u8> {
    let cpl = common_prefix_len(prev, curr) as int;
    vlq_encode((prev.len() - cpl) as u64) + vlq_encode((curr.len() - cpl) as u64) + curr.skip(cpl)
        + (if with_sizes {
        vlq_encode(size_plus_one(size))
    } else {
        Seq::<u8>::empty()
    })
}

/// The bytes of a record stream, threading the rolling pathname.
pub open spec fn encode_entries(
    entries: Seq<(Seq<u8>, Option<u64>)>,
    prev: Seq<u8>,
    with_sizes: bool,
) -> Seq<u8>
    decreases entries.len(),
{
    if entries.len() == 0 {
        Seq::empty()
    } else {
        encode_record(prev, entries[0].0, entries[0].1, with_sizes) + encode_entries(
            entries.drop_first(),
            entries[0].0,
            with_sizes,
        )
    }
}

/// The bytes of a whole database file.
pub open spec fn encode_db(entries: Seq<(Seq<u8>, Option<u64>)>, settings: Settings) -> Seq<u8> {
    db_magic() + seq![settings_byte(settings)] + encode_entries(
        entries,
        Seq::empty(),
        settings is WithFileSizes,
    )
}

/// An entry list that round-trips: sizes below the largest `u64` (the wire
/// stores size plus one), and no size at all when the database stores names
/// only, since the writer would drop it.
pub open spec fn entries_ok(entries: Seq<(Seq<u8>, Option<u64>)>, with_sizes: bool) -> bool {
    forall|i: int|
        0 <= i < entries.len() ==> (entries[i].1 matches Some(s) ==> s < u64::MAX)
            && entries[i].0.len() < 0x1_0000_0000_0000_0000 && (!with_sizes ==> entries[i].1
            is None)
}

/// Write the database bytes for an entry list: the header, then one delta
/// record per entry against the previous pathname.
pub fn write_database(entries: &Vec<ScanEntry>, settings: Settings) -> (r: Vec<u8>)
    requires
        forall|i: int|
            0 <= i < entries@.len() ==> (#[trigger] entries@[i].size matches Some(s) ==> s
                < u64::MAX),
    ensures
        r@ == encode_db(entries_view(entries@), settings),
{
    let ws = match settings {
        Settings::WithFileSizes => true,
        Settings::FileNamesOnly => false,
    };
    let mut out: Vec<u8> = Vec::new();
    out.push(102);
    out.push(115);
    out.push(105);
    out.push(120);
    out.push(settings.as_byte());
    let ghost header = db_magic() + seq![settings_byte(settings)];
    proof {
        assert(out@ =~= header);
    }
    let mut prev: Vec<u8> = Vec::new();
    let n = entries.len();
    let mut i: usize = 0;
    let ghost ev = entries_view(entries@);
    proof {
        assert(ev.skip(0) =~= ev);
        assert(encode_db(ev, settings) =~= out@ + encode_entries(ev, Seq::empty(), ws));
    }
    while i < n
        invariant
            i <= n == entries@.len(),
            ev == entries_view(entries@),
            ws == (settings is WithFileSizes),
            forall|k: int|
                0 <= k < entries@.len() ==> (#[trigger] entries@[k].size matches Some(s) ==> s
                    < u64::MAX),
            prev@ == (if i == 0 {
                Seq::<u8>::empty()
            } else {
                ev[i - 1].0
            }),
            encode_db(ev, settings) == out@ + encode_entries(ev.skip(i as int), prev@, ws),
        decreases n - i,
    {
        let ghost pre_out = out@;
        let ghost rem = ev.skip(i as int);
        proof {
            assert(rem[0] == ev[i as int]);
            assert(rem.drop_first() =~= ev.skip(i as int + 1));
            assert(ev[i as int] == (entries@[i as int].path@, entries@[i as int].size));
        }
        let entry = &entries[i];
        let (discard, suffix) = delta_encode(prev.as_slice(), entry.path.as_slice());
        encode_vlq(discard as u64, &mut out);
        encode_vlq(suffix.len() as u64, &mut out);
        let mut moved = suffix;
        out.append(&mut moved);
        if ws {
            let spo: u64 = match entry.size {
                Some(s) => s + 1,
                None => 0,
            };
            encode_vlq(spo, &mut out);
        }
        proof {
            let cpl = common_prefix_len(prev@, entry.path@) as int;
            lemma_common_prefix_len(prev@, entry.path@);
            assert(out@ =~= pre_out + encode_record(prev@, entry.path@, entry.size, ws));
        }
        prev = vec_copy(&entry.path);
        i = i + 1;
        proof {
            assert(encode_db(ev, settings) == out@ + encode_entries(ev.skip(i as int), prev@, ws));
        }
    }
    proof {
        assert(ev.skip(n as int) =~= Seq::<(Seq<u8>, Option<u64>)>::empty());
        assert(out@ =~= encode_db(ev, settings));
    }
    out
}

/// Copy a vector of plain values.
fn vec_copy<T: Copy>(v: &Vec<T>) -> (r: Vec<T>)
    ensures
        r@ == v@,
{
    let n = v.len();
    let mut out: Vec<T> = Vec::new();
    let mut i: usize = 0;
    while i < n
        invariant
            i <= n == v@.len(),
            out@ =~= v@.take(i as int),
        decreases n - i,
    {
        out.push(v[i]);
        i = i + 1;
    }
    proof {
        assert(out@ =~= v@);
    }
    out
}

#[verifier::rlimit(100)]
proof fn lemma_record_round_trip(
    prev: Seq<u8>,
    curr: Seq<u8>,
    size: Option<u64>,
    with_sizes: bool,
    rest: Seq<u8>,
)
    requires
        prev.len() < 0x1_0000_0000_0000_0000,
        curr.len() < 0x1_0000_0000_0000_0000,
        size matches Some(s) ==> s < u64::MAX,
        !with_sizes ==> size is None,
    ensures
        parse_record(encode_record(prev, curr, size, with_sizes) + rest, prev, with_sizes)
            == Some((curr, size, encode_record(prev, curr, size, with_sizes).len() as int)),
{
    let cpl = common_prefix_len(prev, curr) as int;
    lemma_common_prefix_len(prev, curr);
    let discard = (prev.len() - cpl) as u64;
    let len = (curr.len() - cpl) as u64;
    let suffix = curr.skip(cpl);
    let tail = if with_sizes {
        vlq_encode(size_plus_one(size))
    } else {
        Seq::<u8>::empty()
    };
    let s = encode_record(prev, curr, size, with_sizes) + rest;
    lemma_vlq_round_trip(discard, vlq_encode(len) + suffix + tail + rest);
    assert(s =~= vlq_encode(discard) + (vlq_encode(len) + suffix + tail + rest));
    let n1 = vlq_encode(discard).len() as int;
    assert(vlq_decode(s) == Some((discard, n1)));
    lemma_vlq_round_trip(len, suffix + tail + rest);
    assert(s.skip(n1) =~= vlq_encode(len) + (suffix + tail + rest));
    let n2 = vlq_encode(len).len() as int;
    assert(vlq_decode(s.skip(n1)) == Some((len, n2)));
    assert(suffix.len() == len);
    assert(s.len() >= n1 + n2 + len);
    assert(s.subrange(n1 + n2, n1 + n2 + len as int) =~= suffix);
    assert(prev.take(prev.len() - discard as int) + suffix =~= curr) by {
        assert(prev.take(cpl) == curr.take(cpl));
        assert(curr.take(cpl) + curr.skip(cpl) =~= curr);
    };
    assert(prev.len() - discard as int == cpl);
    assert(prev.take(prev.len() - discard as int) + s.subrange(n1 + n2, n1 + n2 + len as int)
        == curr);
    if with_sizes {
        lemma_vlq_round_trip(size_plus_one(size), rest);
        assert(s.skip(n1 + n2 + len as int) =~= vlq_encode(size_plus_one(size)) + rest);
        let n3 = vlq_encode(size_plus_one(size)).len() as int;
        assert(vlq_decode(s.skip(n1 + n2 + len as int)) == Some((size_plus_one(size), n3)));
        match size {
            Some(v) => {
                assert(size_plus_one(size) == v + 1);
                assert((size_plus_one(size) - 1) as u64 == v);
            },
            None => {
                assert(size_plus_one(size) == 0);
            },
        }
        assert(size_plus_one(size) == 0 ==> size is None);
        assert(size_plus_one(size) != 0 ==> (size matches Some(v) && (size_plus_one(size)
            - 1) as u64 == v));
        assert(encode_record(prev, curr, size, with_sizes).len() == n1 + n2 + len + n3);
        let got = parse_record(s, prev, with_sizes);
        assert(got is Some);
        let payload = got.unwrap();
        assert(payload.0 == curr);
        if size_plus_one(size) == 0 {
            assert(payload.1 is None);
            assert(size is None);
            assert(payload.1 == size);
        } else {
            assert(payload.1 == Some((size_plus_one(size) - 1) as u64));
            assert(payload.1 == size);
        }
        assert(payload.2 == encode_record(prev, curr, size, with_sizes).len() as int);
        assert(payload == (curr, size, encode_record(prev, curr, size, with_sizes).len() as int));
        assert(got == Some(payload));
        assert(got == Some((curr, size, encode_record(prev, curr, size, with_sizes).len() as int)));
    } else {
        assert(encode_record(prev, curr, size, with_sizes).len() == n1 + n2 + len) by {
            assert(encode_record(prev, curr, size, with_sizes) =~= vlq_encode(discard)
                + vlq_encode(len) + suffix);
        };
        assert(parse_record(s, prev, with_sizes) == Some(
            (curr, size, encode_record(prev, curr, size, with_sizes).len() as int),
        ));
    }
}

proof fn lemma_entries_round_trip(
    entries: Seq<(Seq<u8>, Option<u64>)>,
    prev: Seq<u8>,
    with_sizes: bool,
)
    requires
        entries_ok(entries, with_sizes),
        prev.len() < 0x1_0000_0000_0000_0000,
    ensures
        parse_entries(encode_entries(entries, prev, with_sizes), prev, with_sizes) == Some(
            entries,
        ),
    decreases entries.len(),
{
    if entries.len() == 0 {
        assert(encode_entries(entries, prev, with_sizes) =~= Seq::<u8>::empty());
        assert(parse_entries(Seq::<u8>::empty(), prev, with_sizes) =~= Some(
            Seq::<(Seq<u8>, Option<u64>)>::empty(),
        ));
        assert(entries =~= Seq::<(Seq<u8>, Option<u64>)>::empty());
    } else {
        let curr = entries[0].0;
        let size = entries[0].1;
        let rec = encode_record(prev, curr, size, with_sizes);
        let rest = encode_entries(entries.drop_first(), curr, with_sizes);
        let s = encode_entries(entries, prev, with_sizes);
        assert(s =~= rec + rest);
        assert(entries[0].1 matches Some(v) ==> v < u64::MAX);
        lemma_record_round_trip(prev, curr, size, with_sizes, rest);
        assert(parse_record(s, prev, with_sizes) == Some((curr, size, rec.len() as int)));
        crate::locate::lemma_parse_record_len(s, prev, with_sizes);
        assert(s.skip(rec.len() as int) =~= rest);
        lemma_entries_round_trip(entries.drop_first(), curr, with_sizes);
        assert(s.len() > 0) by {
            assert(rec.len() >= 2);
        };
        assert(parse_entries(s, prev, with_sizes) == Some(
            seq![(curr, size)] + entries.drop_first(),
        ));
        assert(seq![(curr, size)] + entries.drop_first() =~= entries);
    }
}

/// Law: reading a written database yields the settings and exactly the
/// written entries, in order.
pub proof fn lemma_db_round_trip(entries: Seq<(Seq<u8>, Option<u64>)>, settings: Settings)
    requires
        entries_ok(entries, settings is WithFileSizes),
    ensures
        parse_db(encode_db(entries, settings)) == Some((settings, entries)),
{
    let s = encode_db(entries, settings);
    let body = encode_entries(entries, Seq::empty(), settings is WithFileSizes);
    assert(s =~= db_magic() + seq![settings_byte(settings)] + body);
    assert(s.len() >= 5);
    assert(s.subrange(0, 4) =~= db_magic());
    assert(s[4] == settings_byte(settings));
    assert(s.skip(5) =~= body);
    lemma_entries_round_trip(entries, Seq::empty(), settings is WithFileSizes);
    match settings {
        Settings::FileNamesOnly => {
            assert(s[4] == 0);
        },
        Settings::WithFileSizes => {
            assert(s[4] == 1);
        },
    }
}

/// Natural order of two texts: digit runs compare numerically, everything
/// else lexicographically; a function of the two texts alone.
pub uninterp spec fn natural_order(a: Seq<char>, b: Seq<char>) -> core::cmp::Ordering;

/// Relies on natord::compare: the case-sensitive natural-order comparison,
/// depending on the two strings alone.
#[verifier::external_body]
pub fn compare(a: &str, b: &str) -> (r: core::cmp::Ordering)
    ensures
        r == natural_order(a@, b@),
{
    natord::compare(a, b)
}

/// Groups of volume indices, keyed by device id in ascending order, after
/// inserting one volume.
pub open spec fn insert_group(groups: Seq<(u64, Seq<int>)>, dev: u64, vi: int) -> Seq<
    (u64, Seq<int>),
>
    decreases groups.len(),
{
    if groups.len() == 0 {
        seq![(dev, seq![vi])]
    } else if groups[0].0 == dev {
        seq![(groups[0].0, groups[0].1.push(vi))] + groups.drop_first()
    } else if dev < groups[0].0 {
        seq![(dev, seq![vi])] + groups
    } else {
        seq![groups[0]] + insert_group(groups.drop_first(), dev, vi)
    }
}

/// Groups of volume indices by device id, one group per device, devices in
/// ascending order, indices in the order given.
pub open spec fn group_spec(devs: Seq<u64>, i: int) -> Seq<(u64, Seq<int>)>
    decreases i,
{
    if i <= 0 {
        Seq::empty()
    } else {
        insert_group(group_spec(devs, i - 1), devs[i - 1], i - 1)
    }
}

/// Group volumes by the device id of each: one group of volume indices per
/// device, devices in ascending order, each group in scan order.
pub fn group_volumes(devs: &Vec<u64>) -> (r: Vec<Vec<usize>>)
    ensures
        ({
            let gs = group_spec(devs@, devs@.len() as int);
            &&& r@.len() == gs.len()
            &&& forall|i: int|
                0 <= i < gs.len() ==> (#[trigger] r@[i])@.map(|j: int, x: usize| x as int)
                    == gs[i].1
        }),
{
    let n = devs.len();
    let mut groups: Vec<(u64, Vec<usize>)> = Vec::new();
    let mut i: usize = 0;
    proof {
        assert(pairs_view(groups@) =~= Seq::<(u64, Seq<int>)>::empty());
    }
    while i < n
        invariant
            i <= n == devs@.len(),
            pairs_view(groups@) == group_spec(devs@, i as int),
        decreases n - i,
    {
        let dev = devs[i];
        groups = insert_into_groups(groups, dev, i);
        i = i + 1;
    }
    let mut out: Vec<Vec<usize>> = Vec::new();
    let mut k: usize = 0;
    let gn = groups.len();
    while k < gn
        invariant
            k <= gn == groups@.len(),
            out@.len() == k,
            pairs_view(groups@) == group_spec(devs@, devs@.len() as int),
            forall|i: int|
                0 <= i < k ==> (#[trigger] out@[i])@.map(|j: int, x: usize| x as int)
                    == pairs_view(groups@)[i].1,
        decreases gn - k,
    {
        let ghost k0 = k as int;
        let moved = vec_copy(&groups[k].1);
        out.push(moved);
        k = k + 1;
        proof {
            assert(moved@ == groups@[k0].1@);
            assert(pairs_view(groups@)[k0] == (
                groups@[k0].0,
                groups@[k0].1@.map(|j: int, x: usize| x as int),
            ));
            assert(out@[k0]@.map(|j: int, x: usize| x as int) == pairs_view(groups@)[k0].1);
        }
    }
    out
}

/// The mathematical form of the keyed groups.
pub open spec fn pairs_view(groups: Seq<(u64, Vec<usize>)>) -> Seq<(u64, Seq<int>)> {
    groups.map(|i: int, p: (u64, Vec<usize>)| (p.0, p.1@.map(|j: int, x: usize| x as int)))
}

/// Insert one volume index under its device key, keeping keys ascending.
fn insert_into_groups(groups_in: Vec<(u64, Vec<usize>)>, dev: u64, vi: usize) -> (r: Vec<
    (u64, Vec<usize>),
>)
    ensures
        pairs_view(r@) == insert_group(pairs_view(groups_in@), dev, vi as int),
{
    let ghost gv0 = pairs_view(groups_in@);
    let mut groups = groups_in;
    let gn = groups.len();
    let mut k: usize = 0;
    while k < gn
        invariant
            k <= gn == groups@.len(),
            gv0 == pairs_view(groups@),
            gv0 == pairs_view(groups_in@),
            forall|j: int| 0 <= j < k ==> #[trigger] gv0[j].0 < dev,
        decreases gn - k,
    {
        let key = groups[k].0;
        proof {
            assert(gv0[k as int].0 == key);
        }
        if key == dev {
            proof {
                lemma_insert_group_found(gv0, dev, vi as int, k as int);
            }
            let mut pair = groups.remove(k);
            pair.1.push(vi);
            groups.insert(k, pair);
            proof {
                assert(pairs_view(groups@) =~~= gv0.update(
                    k as int,
                    (gv0[k as int].0, gv0[k as int].1.push(vi as int)),
                ));
            }
            return groups;
        } else if dev < key {
            proof {
                lemma_insert_group_fresh(gv0, dev, vi as int, k as int);
            }
            let mut fresh: Vec<usize> = Vec::new();
            fresh.push(vi);
            groups.insert(k, (dev, fresh));
            proof {
                assert(seq![vi as int] =~= fresh@.map(|j: int, x: usize| x as int));
                assert(pairs_view(groups@) =~~= gv0.insert(k as int, (dev, seq![vi as int])));
            }
            return groups;
        }
        k = k + 1;
    }
    proof {
        lemma_insert_group_fresh(gv0, dev, vi as int, gn as int);
    }
    let mut fresh: Vec<usize> = Vec::new();
    fresh.push(vi);
    groups.push((dev, fresh));
    proof {
        assert(seq![vi as int] =~= fresh@.map(|j: int, x: usize| x as int));
        assert(pairs_view(groups@) =~~= gv0.insert(gn as int, (dev, seq![vi as int])));
    }
    groups
}

/// Inserting under a key already present appends to that group.
proof fn lemma_insert_group_found(gv: Seq<(u64, Seq<int>)>, dev: u64, vi: int, k: int)
    requires
        0 <= k < gv.len(),
        forall|j: int| 0 <= j < k ==> #[trigger] gv[j].0 < dev,
        gv[k].0 == dev,
    ensures
        insert_group(gv, dev, vi) == gv.update(k, (gv[k].0, gv[k].1.push(vi))),
    decreases k,
{
    if k == 0 {
        assert(insert_group(gv, dev, vi) =~~= gv.update(0, (gv[0].0, gv[0].1.push(vi))));
    } else {
        assert(gv[0].0 < dev);
        assert(gv.drop_first()[k - 1] == gv[k]);
        assert(forall|j: int| 0 <= j < k - 1 ==> #[trigger] gv.drop_first()[j].0 < dev);
        lemma_insert_group_found(gv.drop_first(), dev, vi, k - 1);
        assert(seq![gv[0]] + gv.drop_first().update(
            k - 1,
            (gv[k].0, gv[k].1.push(vi)),
        ) =~~= gv.update(k, (gv[k].0, gv[k].1.push(vi))));
    }
}

/// Inserting under a new key adds a fresh group before the first larger key.
proof fn lemma_insert_group_fresh(gv: Seq<(u64, Seq<int>)>, dev: u64, vi: int, k: int)
    requires
        0 <= k <= gv.len(),
        forall|j: int| 0 <= j < k ==> #[trigger] gv[j].0 < dev,
        k == gv.len() || gv[k].0 > dev,
    ensures
        insert_group(gv, dev, vi) == gv.insert(k, (dev, seq![vi])),
    decreases k,
{
    if k == 0 {
        if gv.len() == 0 {
            assert(insert_group(gv, dev, vi) =~~= gv.insert(0, (dev, seq![vi])));
        } else {
            assert(gv[0].0 > dev);
            assert(insert_group(gv, dev, vi) =~~= gv.insert(0, (dev, seq![vi])));
        }
    } else {
        assert(gv[0].0 < dev);
        assert(forall|j: int| 0 <= j < k - 1 ==> #[trigger] gv.drop_first()[j].0 < dev);
        if k < gv.len() {
            assert(gv.drop_first()[k - 1] == gv[k]);
        }
        lemma_insert_group_fresh(gv.drop_first(), dev, vi, k - 1);
        assert(seq![gv[0]] + gv.drop_first().insert(k - 1, (dev, seq![vi])) =~~= gv.insert(
            k,
            (dev, seq![vi]),
        ));
    }
}

} // verus!
