//! The loaded configuration: the indexed folders, where database files live,
//! and how each folder's database file is named.

use crate::chars::str_chars;
use crate::chars::chars_to_string;
use crate::config::LocateConfig;
use crate::config::VolumeInfo;
use vstd::prelude::*;

verus! {

/// The whole configuration: the index section and the query defaults.
#[derive(Debug, Clone)]
pub struct Config {
    /// The folders to index and where their databases live.
    pub index: Index,
    /// Defaults for locate queries.
    pub locate: LocateConfig,
}

/// The index section of the configuration.
#[derive(Debug, Clone)]
pub struct Index {
    /// The root folders to scan.
    pub folder: Vec<String>,
    /// The folder holding the database files, when known.
    pub db_path: Option<String>,
}

/// The database file name of one folder: the folder's path with every
/// separator replaced by an underscore, and the database suffix appended.
pub open spec fn db_file_name(folder: Seq<char>) -> Seq<char> {
    folder.map(
        |i: int, c: char|
            if c == '/' {
                '_'
            } else {
                c
            },
    ) + ".fsdb"@
}

/// The full database path of one folder under the database folder: joined
/// with a separator unless the database folder already ends with one.
pub open spec fn db_file_path(db_path: Seq<char>, folder: Seq<char>) -> Seq<char> {
    if db_path.len() > 0 && db_path[db_path.len() - 1] == '/' {
        db_path + db_file_name(folder)
    } else {
        db_path + seq!['/'] + db_file_name(folder)
    }
}

/// The database file path for one folder, or `None` when no database folder
/// is configured.
pub fn get_db_file_path(config: &Config, folder: &str) -> (r: Option<String>)
    ensures
        match config.index.db_path {
            Some(db) => r matches Some(p) && p@ == db_file_path(db@, folder@),
            None => r is None,
        },
{
    let db = match &config.index.db_path {
        Some(db) => db,
        None => {
            return None;
        },
    };
    let dcs = str_chars(db.as_str());
    let fcs = str_chars(folder);
    let mut out: Vec<char> = Vec::new();
    let dn = dcs.len();
    let mut i: usize = 0;
    while i < dn
        invariant
            i <= dn == dcs@.len(),
            out@ =~= dcs@.take(i as int),
        decreases dn - i,
    {
        out.push(dcs[i]);
        i = i + 1;
    }
    proof {
        assert(out@ =~= dcs@);
    }
    if dn == 0 || dcs[dn - 1] != '/' {
        out.push('/');
    }
    let ghost base = out@;
    let fnn = fcs.len();
    let mut j: usize = 0;
    while j < fnn
        invariant
            j <= fnn == fcs@.len(),
            out@ =~= base + fcs@.take(j as int).map(
                |k: int, c: char|
                    if c == '/' {
                        '_'
                    } else {
                        c
                    },
            ),
        decreases fnn - j,
    {
        let c = fcs[j];
        if c == '/' {
            out.push('_');
        } else {
            out.push(c);
        }
        j = j + 1;
        proof {
            assert(out@ =~= base + fcs@.take(j as int).map(
                |k: int, c2: char|
                    if c2 == '/' {
                        '_'
                    } else {
                        c2
                    },
            ));
        }
    }
    out.push('.');
    out.push('f');
    out.push('s');
    out.push('d');
    out.push('b');
    proof {
        assert(fcs@.take(fnn as int) =~= fcs@);
        assert(".fsdb"@ =~= seq!['.', 'f', 's', 'd', 'b']) by {
            reveal_strlit(".fsdb");
        };
        assert(out@ =~= db_file_path(db@, folder@));
    }
    Some(chars_to_string(&out))
}

/// The mathematical form of a volume list.
pub open spec fn volumes_view(s: Seq<VolumeInfo>) -> Seq<(Seq<char>, Seq<char>)> {
    s.map(|i: int, v: VolumeInfo| (v.folder@, v.database@))
}

/// The volumes the configuration describes: each folder paired with its
/// database file path.  Without a configured database folder the list is
/// empty.
pub fn get_volume_info(config: &Config) -> (r: Option<Vec<VolumeInfo>>)
    ensures
        r matches Some(vols) && (match config.index.db_path {
            Some(db) => volumes_view(vols@) == Seq::new(
                config.index.folder@.len(),
                |i: int| (config.index.folder@[i]@, db_file_path(db@, config.index.folder@[i]@)),
            ),
            None => vols@.len() == 0,
        }),
{
    let mut vols: Vec<VolumeInfo> = Vec::new();
    let n = config.index.folder.len();
    let mut i: usize = 0;
    if match &config.index.db_path {
        Some(_) => false,
        None => true,
    } {
        return Some(vols);
    }
    let ghost target = Seq::new(
        config.index.folder@.len(),
        |k: int| (config.index.folder@[k]@, db_file_path(config.index.db_path.unwrap()@, config.index.folder@[k]@)),
    );
    while i < n
        invariant
            i <= n == config.index.folder@.len(),
            config.index.db_path is Some,
            target == Seq::new(
                config.index.folder@.len(),
                |k: int|
                    (
                        config.index.folder@[k]@,
                        db_file_path(config.index.db_path.unwrap()@, config.index.folder@[k]@),
                    ),
            ),
            vols@.len() == i,
            volumes_view(vols@) =~~= target.take(i as int),
        decreases n - i,
    {
        let ghost i0 = i as int;
        let folder = &config.index.folder[i];
        let database = match get_db_file_path(config, folder.as_str()) {
            Some(p) => p,
            None => {
                proof {
                    assert(false);
                }
                return None;
            },
        };
        let fcopy: Vec<char> = str_chars(folder.as_str());
        vols.push(VolumeInfo { folder: chars_to_string(&fcopy), database });
        i = i + 1;
        proof {
            assert(vols@[i0].folder@ == config.index.folder@[i0]@);
            assert(vols@[i0].database@ == db_file_path(
                config.index.db_path.unwrap()@,
                config.index.folder@[i0]@,
            ));
            assert(volumes_view(vols@)[i0] == (vols@[i0].folder@, vols@[i0].database@));
            assert(target[i0] == (
                config.index.folder@[i0]@,
                db_file_path(config.index.db_path.unwrap()@, config.index.folder@[i0]@),
            ));
            assert(volumes_view(vols@) =~~= target.take(i as int));
        }
    }
    proof {
        assert(target.take(n as int) =~~= target);
    }
    Some(vols)
}

} // verus!
