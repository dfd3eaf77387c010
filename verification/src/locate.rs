//! Database reader and the locate driver.
//!
//! A database file is a five-byte header (`fsix` plus one settings byte)
//! followed by delta records until the end of the file.  Decoding is strictly
//! sequential: each record rebuilds the current pathname from the previous
//! one.

use crate::codec::common_prefix_len;
use crate::codec::delta_decode;
use crate::codec::decode_vlq;
use crate::codec::vlq_decode;
use crate::config::settings_byte;
use crate::config::Settings;
use vstd::prelude::*;

verus! {

/// Errors of a locate query.
#[derive(Debug)]
pub enum LocateError {
    /// The file is not a database file.
    ExpectedFsdbFile,
    /// A record was cut short, or is corrupt.
    UnexpectedEof,
    /// The settings byte lies outside the known range.
    UnsupportedFileFormat,
    /// The query was aborted.
    Aborted,
    /// The caller's sink reported a broken pipe.
    BrokenPipe,
    /// A glob pattern did not compile: the pattern and globset's message.
    GlobPatternError(String, String),
    /// The query would match every entry.
    Trivial,
}

/// Metadata of one database entry.
#[derive(Debug, Clone, PartialEq, Eq)]
pub struct Metadata {
    /// File size; absent when the database stores names only.
    pub size: Option<u64>,
}

/// The four magic bytes that begin every database file.
pub open spec fn db_magic() -> Seq<u8> {
    seq![102u8, 115u8, 105u8, 120u8]
}

/// Decode one record from the head of `s`, against the previous pathname:
/// the pathname, its size field, and the bytes consumed.
pub open spec fn parse_record(s: Seq<u8>, prev: Seq<u8>, with_sizes: bool) -> Option<
    (Seq<u8>, Option<u64>, int),
> {
    match vlq_decode(s) {
        None => None,
        Some((discard, n1)) => match vlq_decode(s.skip(n1)) {
            None => None,
            Some((len, n2)) => {
                if discard > prev.len() || s.len() < n1 + n2 + len {
                    None
                } else {
                    let suffix = s.subrange(n1 + n2, n1 + n2 + len as int);
                    let path = prev.take(prev.len() - discard) + suffix;
                    if with_sizes {
                        match vlq_decode(s.skip(n1 + n2 + len as int)) {
                            None => None,
                            Some((sp1, n3)) => Some(
                                (
                                    path,
                                    if sp1 == 0 {
                                        None
                                    } else {
                                        Some((sp1 - 1) as u64)
                                    },
                                    n1 + n2 + len + n3,
                                ),
                            ),
                        }
                    } else {
                        Some((path, None, n1 + n2 + len as int))
                    }
                }
            },
        },
    }
}

/// One decoded value consumes between one and all of the bytes.
pub proof fn lemma_vlq_decode_len(s: Seq<u8>)
    ensures
        match vlq_decode(s) {
            Some((_, n)) => 1 <= n <= s.len(),
            None => true,
        },
{
}

/// One record consumes between two and all of the bytes.
pub proof fn lemma_parse_record_len(s: Seq<u8>, prev: Seq<u8>, with_sizes: bool)
    ensures
        match parse_record(s, prev, with_sizes) {
            Some((_, _, n)) => 2 <= n <= s.len(),
            None => true,
        },
{
    if parse_record(s, prev, with_sizes) is Some {
        lemma_vlq_decode_len(s);
        let (_, n1) = vlq_decode(s).unwrap();
        lemma_vlq_decode_len(s.skip(n1));
        let (len, n2) = vlq_decode(s.skip(n1)).unwrap();
        if with_sizes {
            lemma_vlq_decode_len(s.skip(n1 + n2 + len as int));
        }
    }
}

/// Decode every record of `s`, threading the rolling pathname.
pub open spec fn parse_entries(s: Seq<u8>, prev: Seq<u8>, with_sizes: bool) -> Option<
    Seq<(Seq<u8>, Option<u64>)>,
>
    decreases s.len(),
{
    if s.len() == 0 {
        Some(Seq::empty())
    } else {
        match parse_record(s, prev, with_sizes) {
            None => None,
            Some((path, size, n)) => {
                if n < 1 {
                    None
                } else {
                    match parse_entries(s.skip(n), path, with_sizes) {
                        None => None,
                        Some(rest) => Some(seq![(path, size)] + rest),
                    }
                }
            },
        }
    }
}

/// Decode a whole database file: its settings and its entries in order.
pub open spec fn parse_db(s: Seq<u8>) -> Option<(Settings, Seq<(Seq<u8>, Option<u64>)>)> {
    if s.len() < 5 || s.subrange(0, 4) != db_magic() {
        None
    } else if s[4] != 0 && s[4] != 1 {
        None
    } else {
        let settings = if s[4] == 0 {
            Settings::FileNamesOnly
        } else {
            Settings::WithFileSizes
        };
        match parse_entries(s.skip(5), Seq::empty(), settings is WithFileSizes) {
            None => None,
            Some(entries) => Some((settings, entries)),
        }
    }
}

/// Sequential reader over the bytes of one database file.
pub struct FileIndexReader {
    data: Vec<u8>,
    pos: usize,
    path: Vec<u8>,
    settings: Settings,
}

impl FileIndexReader {
    #[verifier::type_invariant]
    spec fn wf(self) -> bool {
        5 <= self.pos <= self.data@.len()
    }

    /// The bytes of the file being read.
    pub closed spec fn data_view(self) -> Seq<u8> {
        self.data@
    }

    /// The read position.
    pub closed spec fn pos_view(self) -> int {
        self.pos as int
    }

    /// The rolling pathname: the last record decoded.
    pub closed spec fn path_view(self) -> Seq<u8> {
        self.path@
    }

    /// The settings found in the header.
    pub closed spec fn settings_view(self) -> Settings {
        self.settings
    }

    /// The settings found in the header.
    pub fn settings(&self) -> (s: Settings)
        ensures
            s == self.settings_view(),
    {
        self.settings
    }

    /// Validate the header of `data` and start reading just past it.
    ///
    /// The file must begin with the magic `fsix`; the settings byte must be a
    /// known one.  A file shorter than the magic is not a database; one cut
    /// inside the header is truncated.
    pub fn new(data: Vec<u8>) -> (r: Result<FileIndexReader, LocateError>)
        ensures
            match r {
                Ok(rd) => data@.len() >= 5 && data@.subrange(0, 4) == db_magic() && settings_byte(
                    rd.settings_view(),
                ) == data@[4] && rd.data_view() == data@ && rd.pos_view() == 5 && rd.path_view()
                    == Seq::<u8>::empty(),
                Err(LocateError::ExpectedFsdbFile) => data@.len() < 4 || data@.subrange(0, 4)
                    != db_magic(),
                Err(LocateError::UnexpectedEof) => data@.len() == 4 && data@.subrange(0, 4)
                    == db_magic(),
                Err(LocateError::UnsupportedFileFormat) => data@.len() >= 5 && data@.subrange(0, 4)
                    == db_magic() && data@[4] != 0 && data@[4] != 1,
                Err(_) => false,
            },
    {
        if data.len() < 4 {
            return Err(LocateError::ExpectedFsdbFile);
        }
        if data[0] != 102 || data[1] != 115 || data[2] != 105 || data[3] != 120 {
            proof {
                assert(data@.subrange(0, 4)[0] == data@[0]);
                assert(data@.subrange(0, 4)[1] == data@[1]);
                assert(data@.subrange(0, 4)[2] == data@[2]);
                assert(data@.subrange(0, 4)[3] == data@[3]);
            }
            return Err(LocateError::ExpectedFsdbFile);
        }
        proof {
            assert(data@.subrange(0, 4) =~= db_magic());
        }
        if data.len() < 5 {
            return Err(LocateError::UnexpectedEof);
        }
        let settings = match Settings::from_byte(data[4]) {
            Some(s) => s,
            None => {
                return Err(LocateError::UnsupportedFileFormat);
            },
        };
        Ok(FileIndexReader { data, pos: 5, path: Vec::new(), settings })
    }

    /// Decode the next record: the pathname and its metadata, `Ok(None)` at a
    /// clean end of the file, or an error on a record cut short or corrupt.
    pub fn next(&mut self) -> (r: Result<Option<(Vec<u8>, Metadata)>, LocateError>)
        ensures
            final(self).data_view() == old(self).data_view(),
            final(self).settings_view() == old(self).settings_view(),
            5 <= final(self).pos_view() <= final(self).data_view().len(),
            ({
                let rem = old(self).data_view().skip(old(self).pos_view());
                let ws = old(self).settings_view() is WithFileSizes;
                match parse_record(rem, old(self).path_view(), ws) {
                    Some((p, sz, n)) => {
                        &&& r matches Ok(Some((path, meta))) && path@ == p && meta.size == sz
                        &&& final(self).pos_view() == old(self).pos_view() + n
                        &&& final(self).path_view() == p
                    },
                    None => {
                        if rem.len() == 0 {
                            r matches Ok(None) && *final(self) == *old(self)
                        } else {
                            r matches Err(e) && e is UnexpectedEof
                        }
                    },
                }
            }),
    {
        proof {
            use_type_invariant(&*self);
        }
        let ghost rem = self.data@.skip(self.pos as int);
        let ghost prev = self.path@;
        let ws = match self.settings {
            Settings::WithFileSizes => true,
            Settings::FileNamesOnly => false,
        };
        if self.pos == self.data.len() {
            return Ok(None);
        }
        let (discard, p1) = match decode_vlq(self.data.as_slice(), self.pos) {
            Some(v) => v,
            None => {
                return Err(LocateError::UnexpectedEof);
            },
        };
        proof {
            assert(self.data@.skip(p1 as int) =~= rem.skip(p1 - self.pos));
        }
        let (len, p2) = match decode_vlq(self.data.as_slice(), p1) {
            Some(v) => v,
            None => {
                return Err(LocateError::UnexpectedEof);
            },
        };
        let avail = self.data.len() - p2;
        if discard > self.path.len() as u64 || len > avail as u64 {
            proof {
                assert(rem.len() < (p1 - self.pos) + (p2 - p1) + len || discard > prev.len());
            }
            return Err(LocateError::UnexpectedEof);
        }
        let len_u: usize = len as usize;
        let dn: usize = self.data.len();
        let mut suffix: Vec<u8> = Vec::new();
        let mut k: usize = 0;
        while k < len_u
            invariant
                k <= len_u,
                dn == self.data@.len(),
                p2 + len_u <= dn,
                suffix@ =~= self.data@.subrange(p2 as int, p2 + k),
            decreases len_u - k,
        {
            suffix.push(self.data[p2 + k]);
            k = k + 1;
        }
        proof {
            assert(suffix@ =~= rem.subrange((p1 - self.pos) + (p2 - p1), (p1 - self.pos) + (p2
                - p1) + len as int));
        }
        let p3 = p2 + len_u;
        let size: Option<u64> = if ws {
            proof {
                assert(self.data@.skip(p3 as int) =~= rem.skip(p3 - self.pos));
            }
            let (sp1, p4) = match decode_vlq(self.data.as_slice(), p3) {
                Some(v) => v,
                None => {
                    return Err(LocateError::UnexpectedEof);
                },
            };
            self.pos = p4;
            if sp1 == 0 {
                None
            } else {
                Some(sp1 - 1)
            }
        } else {
            self.pos = p3;
            None
        };
        let mut rebuilt = self.path.clone();
        delta_decode(&mut rebuilt, discard, suffix.as_slice());
        let path_out = rebuilt.clone();
        self.path = rebuilt;
        Ok(Some((path_out, Metadata { size })))
    }
}

} // verus!

verus! {

/// The text a pathname is matched as; relies on String::from_utf8_lossy, a
/// function of the bytes alone.
pub uninterp spec fn lossy_of(bytes: Seq<u8>) -> Seq<char>;

/// Relies on String::from_utf8_lossy: invalid UTF-8 sequences become
/// replacement characters, depending on the bytes alone; valid UTF-8 decodes
/// to exactly its characters.
#[verifier::external_body]
pub(crate) fn lossy_string(b: &[u8]) -> (r: String)
    ensures
        r@ == lossy_of(b@),
        vstd::utf8::valid_utf8(b@) ==> r@ == vstd::utf8::decode_utf8(b@),
{
    String::from_utf8_lossy(b).into_owned()
}

/// A cooperative cancellation flag, shared with the caller and polled once
/// per record.
pub struct AbortFlag {
    flag: core::sync::atomic::AtomicBool,
}

impl AbortFlag {
    /// A fresh, unset flag.
    pub fn new() -> AbortFlag {
        AbortFlag { flag: core::sync::atomic::AtomicBool::new(false) }
    }

    /// Raise the flag.
    pub fn set(&self) {
        self.flag.store(true, core::sync::atomic::Ordering::Relaxed);
    }

    /// Read the flag; another thread may raise it at any time, so nothing is
    /// promised of the value.
    pub fn is_set(&self) -> bool {
        self.flag.load(core::sync::atomic::Ordering::Relaxed)
    }
}

/// The entries of a database that a compiled filter accepts, in order.
pub open spec fn matching_entries(
    entries: Seq<(Seq<u8>, Option<u64>)>,
    p: Seq<crate::filter::SpecTok>,
) -> Seq<(Seq<u8>, Option<u64>)> {
    entries.filter(|e: (Seq<u8>, Option<u64>)| crate::filter::filter_accepts(p, lossy_of(e.0)))
}

/// The mathematical form of emitted matches.
pub open spec fn out_view(s: Seq<(Vec<u8>, Metadata)>) -> Seq<(Seq<u8>, Option<u64>)> {
    s.map(|i: int, e: (Vec<u8>, Metadata)| (e.0@, e.1.size))
}

/// Stream the database bytes of one volume through the compiled filter,
/// appending every matching entry to `out`.
///
/// Without an abort flag, a well-formed database is processed completely and
/// yields exactly its matching entries, in order.  The abort flag is polled
/// once before each record; when it reads raised, the matches emitted so far
/// cover a prefix of the database and `Aborted` is returned.
#[verifier::rlimit(100)]
pub fn locate_volume(
    data: Vec<u8>,
    filter: &crate::filter::CompiledFilter,
    abort: Option<&AbortFlag>,
    out: &mut Vec<(Vec<u8>, Metadata)>,
) -> (r: Result<(), LocateError>)
    ensures
        match r {
            Ok(()) => parse_db(data@) matches Some((_s, entries)) && out_view(final(out)@)
                == out_view(old(out)@) + matching_entries(entries, filter@),
            Err(e) => match e {
                LocateError::Aborted => abort is Some && (parse_db(data@) matches Some(
                    (_s, entries),
                ) ==> exists|k: int|
                    0 <= k <= entries.len() && out_view(final(out)@) == out_view(old(out)@)
                        + matching_entries(#[trigger] entries.take(k), filter@)),
                LocateError::ExpectedFsdbFile => parse_db(data@) is None,
                LocateError::UnexpectedEof => parse_db(data@) is None,
                LocateError::UnsupportedFileFormat => parse_db(data@) is None,
                _ => false,
            },
        },
{
    let ghost p = filter@;
    let mut reader = match FileIndexReader::new(data) {
        Ok(rd) => rd,
        Err(e) => {
            proof {
                match e {
                    LocateError::ExpectedFsdbFile => {},
                    LocateError::UnexpectedEof => {},
                    LocateError::UnsupportedFileFormat => {},
                    _ => {
                        assert(false);
                    },
                }
            }
            return Err(e);
        },
    };
    let ws = match reader.settings() {
        Settings::WithFileSizes => true,
        Settings::FileNamesOnly => false,
    };
    let ghost dv = reader.data_view();
    let ghost mut so_far: Seq<(Seq<u8>, Option<u64>)> = Seq::empty();
    proof {
        assert(out_view(out@) + matching_entries(so_far, p) =~= out_view(out@)) by {
            reveal_with_fuel(Seq::<_>::filter, 2);
        };
    }
    loop
        invariant
            dv == data@,
            reader.data_view() == dv,
            reader.settings_view() == (if ws {
                Settings::WithFileSizes
            } else {
                Settings::FileNamesOnly
            }),
            p == filter@,
            parse_db(dv) == (match parse_entries(
                dv.skip(reader.pos_view()),
                reader.path_view(),
                ws,
            ) {
                Some(rest) => Some(
                    (
                        if ws {
                            Settings::WithFileSizes
                        } else {
                            Settings::FileNamesOnly
                        },
                        so_far + rest,
                    ),
                ),
                None => None::<(Settings, Seq<(Seq<u8>, Option<u64>)>)>,
            }),
            5 <= reader.pos_view() <= dv.len(),
            out_view(out@) == out_view(old(out)@) + matching_entries(so_far, p),
        decreases dv.len() - reader.pos_view(),
    {
        if let Some(a) = abort {
            if a.is_set() {
                proof {
                    if parse_db(dv) is Some {
                        let entries = parse_db(dv).unwrap().1;
                        let rest = parse_entries(
                            dv.skip(reader.pos_view()),
                            reader.path_view(),
                            ws,
                        ).unwrap();
                        assert(entries == so_far + rest);
                        assert(entries.take(so_far.len() as int) =~= so_far);
                        assert(out_view(out@) == out_view(old(out)@) + matching_entries(
                            entries.take(so_far.len() as int),
                            p,
                        ));
                    }
                }
                return Err(LocateError::Aborted);
            }
        }
        let ghost pos0 = reader.pos_view();
        let ghost path0 = reader.path_view();
        match reader.next() {
            Ok(Some((path, meta))) => {
                let ghost rec = (path@, meta.size);
                proof {
                    let rem0 = dv.skip(pos0);
                    assert(rem0.len() > 0) by {
                        if rem0.len() == 0 {
                            assert(parse_record(rem0, path0, ws) is None);
                        }
                    };
                    assert(parse_record(rem0, path0, ws) is Some);
                    lemma_parse_record_len(rem0, path0, ws);
                    let n = parse_record(rem0, path0, ws).unwrap().2;
                    assert(reader.pos_view() == pos0 + n);
                    assert(rem0.skip(n) =~= dv.skip(pos0 + n));
                    assert(parse_entries(rem0, path0, ws) == (match parse_entries(
                        dv.skip(reader.pos_view()),
                        path@,
                        ws,
                    ) {
                        Some(rest2) => Some(seq![rec] + rest2),
                        None => None::<Seq<(Seq<u8>, Option<u64>)>>,
                    }));
                }
                let text = lossy_string(path.as_slice());
                let hit = crate::filter::apply(text.as_str(), filter);
                let ghost so_far0 = so_far;
                let ghost out_before = out@;
                proof {
                    so_far = so_far.push(rec);
                    assert(so_far0.push(rec).drop_last() =~= so_far0);
                    assert(matching_entries(so_far, p) =~= (if crate::filter::filter_accepts(
                        p,
                        lossy_of(rec.0),
                    ) {
                        matching_entries(so_far0, p).push(rec)
                    } else {
                        matching_entries(so_far0, p)
                    })) by {
                        reveal_with_fuel(Seq::<_>::filter, 2);
                    };
                    assert forall|s2: Seq<(Seq<u8>, Option<u64>)>|
                        so_far + s2 =~= so_far0 + (seq![rec] + s2) by {};
                }
                if hit {
                    out.push((path, meta));
                    proof {
                        assert(out_view(out@) =~= out_view(out_before).push(rec));
                        assert(out_view(out_before).push(rec) =~= out_view(old(out)@) + (
                        matching_entries(so_far0, p).push(rec)));
                        assert(out_view(out@) =~= out_view(old(out)@) + matching_entries(
                            so_far,
                            p,
                        ));
                    }
                }
            },
            Ok(None) => {
                proof {
                    assert(dv.skip(reader.pos_view()).len() == 0);
                    assert(parse_entries(dv.skip(reader.pos_view()), reader.path_view(), ws)
                        == Some(Seq::<(Seq<u8>, Option<u64>)>::empty()));
                    assert(so_far + Seq::<(Seq<u8>, Option<u64>)>::empty() =~= so_far);
                    assert(parse_db(dv) matches Some((_s2, entries2)) && entries2 == so_far);
                }
                return Ok(());
            },
            Err(e) => {
                proof {
                    assert(parse_db(dv) is None);
                    assert(e is UnexpectedEof);
                }
                return Err(LocateError::UnexpectedEof);
            },
        }
    }
}

} // verus!

verus! {

/// The database bytes of a volume list.
pub open spec fn volumes_data(vols: Seq<(crate::config::VolumeInfo, Vec<u8>)>) -> Seq<Seq<u8>> {
    vols.map(|i: int, v: (crate::config::VolumeInfo, Vec<u8>)| v.1@)
}

/// The matches of a query over every volume, in volume order, or `None`
/// when some volume's bytes are not a well-formed database.
pub open spec fn located(datas: Seq<Seq<u8>>, p: Seq<crate::filter::SpecTok>) -> Option<
    Seq<(Seq<u8>, Option<u64>)>,
>
    decreases datas.len(),
{
    if datas.len() == 0 {
        Some(Seq::empty())
    } else {
        match parse_db(datas[0]) {
            None => None,
            Some((_s, es)) => match located(datas.drop_first(), p) {
                None => None,
                Some(more) => Some(matching_entries(es, p) + more),
            },
        }
    }
}

/// Run a query over the database bytes of every volume: compile the token
/// list once, then stream each volume through the program, appending every
/// match to `out`.
///
/// A trivial query, one that would match everything, is a benign no-op.  A
/// bad glob pattern is rejected with its text.  Per-volume errors end the
/// run at once.
#[verifier::rlimit(100)]
pub fn locate(
    volumes: Vec<(crate::config::VolumeInfo, Vec<u8>)>,
    filter: &[crate::filter::FilterToken],
    config: &crate::config::LocateConfig,
    abort: Option<&AbortFlag>,
    out: &mut Vec<(Vec<u8>, Metadata)>,
) -> (r: Result<(), LocateError>)
    ensures
        match crate::filter::compile_spec(filter@, *config) {
            Err(crate::filter::CompileError::Trivial) => r is Ok && final(out)@ == old(out)@,
            Err(crate::filter::CompileError::BadGlob(t)) => r matches Err(
                LocateError::GlobPatternError(pat, _),
            ) && pat@ == t,
            Ok(prog) => match r {
                Ok(()) => located(volumes_data(volumes@), prog) matches Some(all) && out_view(
                    final(out)@,
                ) == out_view(old(out)@) + all,
                Err(e) => {
                    &&& (e is Aborted ==> abort is Some)
                    &&& (e is ExpectedFsdbFile || e is UnexpectedEof || e
                        is UnsupportedFileFormat) ==> located(volumes_data(volumes@), prog)
                        is None
                    &&& !(e is Trivial || e is BrokenPipe || e is GlobPatternError)
                },
            },
        },
{
    let compiled = match crate::filter::compile(filter, config) {
        Ok(cf) => cf,
        Err(e) => {
            match e {
                LocateError::Trivial => {
                    return Ok(());
                },
                LocateError::GlobPatternError(pat, cause) => {
                    return Err(LocateError::GlobPatternError(pat, cause));
                },
                _ => {
                    proof {
                        assert(false);
                    }
                    return Err(e);
                },
            }
        },
    };
    let ghost prog = compiled@;
    let ghost all_data = volumes_data(volumes@);
    let mut remaining = volumes;
    let ghost mut done: int = 0;
    let ghost mut emitted: Seq<(Seq<u8>, Option<u64>)> = Seq::empty();
    proof {
        assert(volumes_data(remaining@) =~~= all_data.skip(0));
        assert(out_view(out@) =~= out_view(old(out)@) + emitted);
    }
    loop
        invariant
            prog == compiled@,
            crate::filter::compile_spec(filter@, *config) == Ok::<
                Seq<crate::filter::SpecTok>,
                crate::filter::CompileError,
            >(prog),
            all_data == volumes_data(volumes@),
            0 <= done <= all_data.len(),
            volumes_data(remaining@) == all_data.skip(done),
            out_view(out@) == out_view(old(out)@) + emitted,
            located(all_data, prog) == (match located(all_data.skip(done), prog) {
                Some(rest) => Some(emitted + rest),
                None => None::<Seq<(Seq<u8>, Option<u64>)>>,
            }),
        decreases remaining@.len(),
    {
        if remaining.len() == 0 {
            proof {
                assert(all_data.skip(done) =~= Seq::<Seq<u8>>::empty());
                assert(located(all_data.skip(done), prog) == Some(
                    Seq::<(Seq<u8>, Option<u64>)>::empty(),
                ));
                assert(emitted + Seq::<(Seq<u8>, Option<u64>)>::empty() =~= emitted);
            }
            return Ok(());
        }
        let ghost pre = out@;
        let ghost old_rem = remaining@;
        let (_vi, data) = remaining.remove(0);
        proof {
            assert(remaining@ =~= old_rem.drop_first());
            assert(all_data.skip(done)[0] == data@);
            assert forall|i: int| 0 <= i < remaining@.len() implies #[trigger] volumes_data(
                remaining@,
            )[i] == volumes_data(old_rem)[i + 1] by {}
            assert(volumes_data(remaining@) =~= all_data.skip(done + 1));
            assert(all_data.skip(done).drop_first() =~= all_data.skip(done + 1));
        }
        match locate_volume(data, &compiled, abort, out) {
            Ok(()) => {
                proof {
                    let es = parse_db(all_data.skip(done)[0]).unwrap().1;
                    let m = matching_entries(es, prog);
                    assert(out_view(out@) == out_view(pre) + m);
                    assert(out_view(out@) =~= out_view(old(out)@) + (emitted + m));
                    match located(all_data.skip(done + 1), prog) {
                        Some(rest) => {
                            assert(located(all_data.skip(done), prog) == Some(m + rest));
                            assert(emitted + (m + rest) =~= (emitted + m) + rest);
                        },
                        None => {
                            assert(located(all_data.skip(done), prog) is None);
                        },
                    }
                    emitted = emitted + m;
                    done = done + 1;
                }
            },
            Err(e) => {
                proof {
                    match e {
                        LocateError::Aborted => {},
                        LocateError::ExpectedFsdbFile => {
                            assert(parse_db(all_data.skip(done)[0]) is None);
                        },
                        LocateError::UnexpectedEof => {},
                        LocateError::UnsupportedFileFormat => {},
                        _ => {
                            assert(false);
                        },
                    }
                }
                return Err(e);
            },
        }
    }
}

} // verus!
