//! Datasources and the catalog that names them.

use vstd::prelude::*;
use vstd::string::*;

verus! {

/// A delimited-file datasource.
#[derive(Debug, Clone, PartialEq, Eq)]
pub struct Csv {
    pub id: u8,
    pub name: String,
    pub filename: String,
    pub path: String,
    pub delimiter: char,
    pub has_headers: bool,
}

/// A semi-structured document datasource of tag/value pairs.
#[derive(Debug, Clone, PartialEq, Eq)]
pub struct Xml {
    pub id: u8,
    pub name: String,
    pub filename: String,
    pub path: String,
}

/// A relational database datasource.
#[derive(Debug, Clone, PartialEq, Eq)]
pub struct Database {
    pub id: u8,
    pub name: String,
    pub system: String,
    pub connection: String,
    pub username: String,
    pub password: String,
    pub database: String,
}

/// A spreadsheet datasource.
#[derive(Debug, Clone, PartialEq, Eq)]
pub struct Excel {
    pub id: u8,
    pub name: String,
    pub filename: String,
    pub path: String,
    pub sheet: String,
    pub has_headers: bool,
}

/// One configured datasource.
#[derive(Debug, Clone, PartialEq, Eq)]
pub enum Datasource {
    Csv(Csv),
    Xml(Xml),
    Excel(Excel),
    Database(Database),
}

/// The name by which join edges refer to a datasource.
pub open spec fn ds_name(d: Datasource) -> String {
    match d {
        Datasource::Csv(c) => c.name,
        Datasource::Xml(x) => x.name,
        Datasource::Excel(e) => e.name,
        Datasource::Database(b) => b.name,
    }
}

impl Datasource {
    /// The datasource's name.
    pub fn name(&self) -> (r: &String)
        ensures
            *r == ds_name(*self),
    {
        match self {
            Datasource::Csv(c) => &c.name,
            Datasource::Xml(x) => &x.name,
            Datasource::Excel(e) => &e.name,
            Datasource::Database(b) => &b.name,
        }
    }
}

/// One `datasource` element of a catalog document, as it is read.
#[derive(Debug, Clone, PartialEq, Eq)]
pub struct DeserializedDatasource {
    pub ds_type: String,
    pub id: u8,
    pub name: String,
    pub filename: Option<String>,
    pub path: Option<String>,
    pub sheet: Option<String>,
    pub delimiter: Option<char>,
    pub headings: Option<String>,
    pub system: Option<String>,
    pub connection: Option<String>,
    pub username: Option<String>,
    pub password: Option<String>,
    pub database: Option<String>,
}

/// A field that a datasource type requires.
#[derive(Debug, Clone, Copy, PartialEq, Eq, Structural)]
pub enum Field {
    Filename,
    Path,
    Sheet,
    Delimiter,
    Headings,
    System,
    Connection,
    Username,
    Password,
    Database,
}

/// Why a catalog document could not be loaded.
#[derive(Debug, Clone, PartialEq, Eq)]
pub enum CatalogError {
    /// The type attribute is none of `csv`, `xml`, `db`, `excel`.
    UnknownType(String),
    /// The named datasource lacks a field its type requires.
    MissingField(String, Field),
}

/// Whether a headings field announces a header record.
pub open spec fn spec_headings(s: Seq<char>) -> bool {
    s == "yes"@ || s == "true"@ || s == "y"@ || s == "1"@
}

/// The datasource a catalog entry describes; the first missing field, in
/// declaration order, is the error.
pub open spec fn spec_datasource(r: DeserializedDatasource) -> Result<Datasource, CatalogError> {
    let missing = |f: Field| Err::<Datasource, CatalogError>(CatalogError::MissingField(r.name, f));
    if r.ds_type@ == "csv"@ {
        if r.filename is None {
            missing(Field::Filename)
        } else if r.path is None {
            missing(Field::Path)
        } else if r.delimiter is None {
            missing(Field::Delimiter)
        } else if r.headings is None {
            missing(Field::Headings)
        } else {
            Ok(
                Datasource::Csv(
                    Csv {
                        id: r.id,
                        name: r.name,
                        filename: r.filename->0,
                        path: r.path->0,
                        delimiter: r.delimiter->0,
                        has_headers: spec_headings(r.headings->0@),
                    },
                ),
            )
        }
    } else if r.ds_type@ == "xml"@ {
        if r.filename is None {
            missing(Field::Filename)
        } else if r.path is None {
            missing(Field::Path)
        } else {
            Ok(
                Datasource::Xml(
                    Xml { id: r.id, name: r.name, filename: r.filename->0, path: r.path->0 },
                ),
            )
        }
    } else if r.ds_type@ == "excel"@ {
        if r.filename is None {
            missing(Field::Filename)
        } else if r.path is None {
            missing(Field::Path)
        } else if r.sheet is None {
            missing(Field::Sheet)
        } else if r.headings is None {
            missing(Field::Headings)
        } else {
            Ok(
                Datasource::Excel(
                    Excel {
                        id: r.id,
                        name: r.name,
                        filename: r.filename->0,
                        path: r.path->0,
                        sheet: r.sheet->0,
                        has_headers: spec_headings(r.headings->0@),
                    },
                ),
            )
        }
    } else if r.ds_type@ == "db"@ {
        if r.system is None {
            missing(Field::System)
        } else if r.connection is None {
            missing(Field::Connection)
        } else if r.username is None {
            missing(Field::Username)
        } else if r.password is None {
            missing(Field::Password)
        } else if r.database is None {
            missing(Field::Database)
        } else {
            Ok(
                Datasource::Database(
                    Database {
                        id: r.id,
                        name: r.name,
                        system: r.system->0,
                        connection: r.connection->0,
                        username: r.username->0,
                        password: r.password->0,
                        database: r.database->0,
                    },
                ),
            )
        }
    } else {
        Err(CatalogError::UnknownType(r.ds_type))
    }
}

fn is_literal(s: &String, lit: &str) -> (r: bool)
    ensures
        r == (s@ == lit@),
{
    *s == String::from_str(lit)
}

/// Whether a headings field announces a header record (`yes`, `true`, `y`
/// or `1`).
pub fn parse_headings(s: &String) -> (r: bool)
    ensures
        r == spec_headings(s@),
{
    is_literal(s, "yes") || is_literal(s, "true") || is_literal(s, "y") || is_literal(s, "1")
}

impl Datasource {
    /// The datasource a catalog entry describes.
    pub fn from_record(r: DeserializedDatasource) -> (res: Result<Datasource, CatalogError>)
        ensures
            res == spec_datasource(r),
    {
        let ghost g = r;
        let DeserializedDatasource {
            ds_type,
            id,
            name,
            filename,
            path,
            sheet,
            delimiter,
            headings,
            system,
            connection,
            username,
            password,
            database,
        } = r;
        if is_literal(&ds_type, "csv") {
            let filename = match filename {
                Some(v) => v,
                None => return Err(CatalogError::MissingField(name, Field::Filename)),
            };
            let path = match path {
                Some(v) => v,
                None => return Err(CatalogError::MissingField(name, Field::Path)),
            };
            let delimiter = match delimiter {
                Some(v) => v,
                None => return Err(CatalogError::MissingField(name, Field::Delimiter)),
            };
            let headings = match headings {
                Some(v) => v,
                None => return Err(CatalogError::MissingField(name, Field::Headings)),
            };
            let has_headers = parse_headings(&headings);
            Ok(Datasource::Csv(Csv { id, name, filename, path, delimiter, has_headers }))
        } else if is_literal(&ds_type, "xml") {
            let filename = match filename {
                Some(v) => v,
                None => return Err(CatalogError::MissingField(name, Field::Filename)),
            };
            let path = match path {
                Some(v) => v,
                None => return Err(CatalogError::MissingField(name, Field::Path)),
            };
            Ok(Datasource::Xml(Xml { id, name, filename, path }))
        } else if is_literal(&ds_type, "excel") {
            let filename = match filename {
                Some(v) => v,
                None => return Err(CatalogError::MissingField(name, Field::Filename)),
            };
            let path = match path {
                Some(v) => v,
                None => return Err(CatalogError::MissingField(name, Field::Path)),
            };
            let sheet = match sheet {
                Some(v) => v,
                None => return Err(CatalogError::MissingField(name, Field::Sheet)),
            };
            let headings = match headings {
                Some(v) => v,
                None => return Err(CatalogError::MissingField(name, Field::Headings)),
            };
            let has_headers = parse_headings(&headings);
            Ok(Datasource::Excel(Excel { id, name, filename, path, sheet, has_headers }))
        } else if is_literal(&ds_type, "db") {
            let system = match system {
                Some(v) => v,
                None => return Err(CatalogError::MissingField(name, Field::System)),
            };
            let connection = match connection {
                Some(v) => v,
                None => return Err(CatalogError::MissingField(name, Field::Connection)),
            };
            let username = match username {
                Some(v) => v,
                None => return Err(CatalogError::MissingField(name, Field::Username)),
            };
            let password = match password {
                Some(v) => v,
                None => return Err(CatalogError::MissingField(name, Field::Password)),
            };
            let database = match database {
                Some(v) => v,
                None => return Err(CatalogError::MissingField(name, Field::Database)),
            };
            Ok(
                Datasource::Database(
                    Database { id, name, system, connection, username, password, database },
                ),
            )
        } else {
            Err(CatalogError::UnknownType(ds_type))
        }
    }
}

/// Datasources by name. A catalog that `load_datasources_xml` builds holds
/// no two entries of one name (see `names_distinct`).
#[derive(Debug, Clone, PartialEq, Eq)]
pub struct Catalog {
    pub entries: Vec<Datasource>,
}

/// Position of the first datasource named `n`.
pub open spec fn find_ds(entries: Seq<Datasource>, n: Seq<char>) -> Option<int>
    decreases entries.len(),
{
    if entries.len() == 0 {
        None
    } else if ds_name(entries[0])@ == n {
        Some(0)
    } else {
        match find_ds(entries.drop_first(), n) {
            Some(i) => Some(i + 1),
            None => None,
        }
    }
}

/// The catalog of a sequence of entries: a later entry replaces an earlier
/// one of the same name, in its place; the first malformed entry is the
/// error.
pub open spec fn spec_catalog(records: Seq<DeserializedDatasource>) -> Result<
    Seq<Datasource>,
    CatalogError,
>
    decreases records.len(),
{
    if records.len() == 0 {
        Ok(Seq::empty())
    } else {
        match spec_catalog(records.drop_last()) {
            Err(e) => Err(e),
            Ok(done) => match spec_datasource(records.last()) {
                Err(e) => Err(e),
                Ok(d) => match find_ds(done, ds_name(d)@) {
                    Some(j) => if 0 <= j < done.len() {
                        Ok(done.update(j, d))
                    } else {
                        Ok(done)
                    },
                    None => Ok(done.push(d)),
                },
            },
        }
    }
}

/// No two datasources share a name.
pub open spec fn names_distinct(entries: Seq<Datasource>) -> bool {
    forall|i: int, j: int|
        0 <= i < entries.len() && 0 <= j < entries.len() && i != j ==> ds_name(#[trigger] entries[i])@
            != ds_name(#[trigger] entries[j])@
}

proof fn lemma_find_ds_result(entries: Seq<Datasource>, n: Seq<char>)
    ensures
        match find_ds(entries, n) {
            Some(j) => 0 <= j < entries.len() && ds_name(entries[j])@ == n,
            None => forall|k: int| 0 <= k < entries.len() ==> ds_name(#[trigger] entries[k])@ != n,
        },
    decreases entries.len(),
{
    if entries.len() > 0 {
        lemma_find_ds_result(entries.drop_first(), n);
        if find_ds(entries, n) is None {
            assert forall|k: int| 0 <= k < entries.len() implies ds_name(#[trigger] entries[k])@ != n by {
                if k > 0 {
                    assert(entries[k] == entries.drop_first()[k - 1]);
                }
            }
        }
    }
}

/// A loaded catalog holds each name once.
pub proof fn lemma_catalog_names_distinct(records: Seq<DeserializedDatasource>)
    ensures
        spec_catalog(records) matches Ok(entries) ==> names_distinct(entries),
    decreases records.len(),
{
    if records.len() > 0 {
        lemma_catalog_names_distinct(records.drop_last());
        if let Ok(done) = spec_catalog(records.drop_last()) {
            if let Ok(d) = spec_datasource(records.last()) {
                lemma_find_ds_result(done, ds_name(d)@);
                match find_ds(done, ds_name(d)@) {
                    Some(j) => {
                        let u = done.update(j, d);
                        assert forall|a: int, b: int|
                            0 <= a < u.len() && 0 <= b < u.len() && a != b implies ds_name(#[trigger] u[a])@
                            != ds_name(#[trigger] u[b])@ by {
                            if a != j && b != j {
                                assert(u[a] == done[a] && u[b] == done[b]);
                            } else if a == j {
                                assert(u[b] == done[b]);
                            } else {
                                assert(u[a] == done[a]);
                            }
                        }
                    },
                    None => {
                        let u = done.push(d);
                        assert forall|a: int, b: int|
                            0 <= a < u.len() && 0 <= b < u.len() && a != b implies ds_name(#[trigger] u[a])@
                            != ds_name(#[trigger] u[b])@ by {
                            if a < done.len() && b < done.len() {
                                assert(u[a] == done[a] && u[b] == done[b]);
                            } else if a < done.len() {
                                assert(u[a] == done[a]);
                            } else {
                                assert(u[b] == done[b]);
                            }
                        }
                    },
                }
            }
        }
    }
}

proof fn lemma_find_ds(entries: Seq<Datasource>, n: Seq<char>, i: int)
    requires
        0 <= i < entries.len(),
        ds_name(entries[i])@ == n,
        forall|k: int| 0 <= k < i ==> ds_name(entries[k])@ != n,
    ensures
        find_ds(entries, n) == Some(i),
    decreases entries.len(),
{
    if i > 0 {
        lemma_find_ds(entries.drop_first(), n, i - 1);
    }
}

proof fn lemma_find_ds_none(entries: Seq<Datasource>, n: Seq<char>)
    requires
        forall|k: int| 0 <= k < entries.len() ==> ds_name(entries[k])@ != n,
    ensures
        find_ds(entries, n) is None,
    decreases entries.len(),
{
    if entries.len() > 0 {
        lemma_find_ds_none(entries.drop_first(), n);
    }
}

proof fn lemma_catalog_error_persists(records: Seq<DeserializedDatasource>, k: int)
    requires
        0 <= k <= records.len(),
        spec_catalog(records.subrange(0, k)) is Err,
    ensures
        spec_catalog(records) == spec_catalog(records.subrange(0, k)),
    decreases records.len() - k,
{
    if k < records.len() {
        assert(records.subrange(0, k + 1).drop_last() =~= records.subrange(0, k));
        lemma_catalog_error_persists(records, k + 1);
    } else {
        assert(records.subrange(0, k) =~= records);
    }
}

impl Catalog {
    /// Position of the datasource named `name`, if any.
    pub fn position(&self, name: &String) -> (r: Option<usize>)
        ensures
            match r {
                Some(j) => {
                    &&& j < self.entries@.len()
                    &&& find_ds(self.entries@, name@) == Some(j as int)
                },
                None => find_ds(self.entries@, name@) is None,
            },
    {
        let mut i: usize = 0;
        while i < self.entries.len()
            invariant
                i <= self.entries@.len(),
                forall|k: int| 0 <= k < i ==> ds_name(self.entries@[k])@ != name@,
            decreases self.entries@.len() - i,
        {
            if *self.entries[i].name() == *name {
                proof {
                    lemma_find_ds(self.entries@, name@, i as int);
                }
                return Some(i);
            }
            i = i + 1;
        }
        proof {
            lemma_find_ds_none(self.entries@, name@);
        }
        None
    }

    /// The datasource named `name`, if any.
    pub fn get(&self, name: &String) -> (r: Option<&Datasource>)
        ensures
            match find_ds(self.entries@, name@) {
                Some(j) => r == Some(&self.entries@[j]),
                None => r is None,
            },
    {
        match self.position(name) {
            Some(j) => Some(&self.entries[j]),
            None => None,
        }
    }
}

/// Builds the catalog of a datasource document's entries.
pub fn load_datasources_xml(records: Vec<DeserializedDatasource>) -> (r: Result<Catalog, CatalogError>)
    ensures
        match r {
            Ok(c) => spec_catalog(records@) == Ok::<Seq<Datasource>, CatalogError>(c.entries@),
            Err(e) => spec_catalog(records@) == Err::<Seq<Datasource>, CatalogError>(e),
        },
        r matches Ok(c) ==> names_distinct(c.entries@),
{
    proof {
        lemma_catalog_names_distinct(records@);
    }
    let ghost orig = records@;
    let total = records.len();
    let mut rest = records;
    let mut cat = Catalog { entries: Vec::new() };
    let mut k: usize = 0;
    assert(orig.subrange(0, 0) =~= Seq::<DeserializedDatasource>::empty());
    while rest.len() > 0
        invariant
            k + rest@.len() == orig.len(),
            orig.len() == total,
            orig == records@,
            rest@ =~= orig.subrange(k as int, orig.len() as int),
            spec_catalog(orig.subrange(0, k as int)) == Ok::<Seq<Datasource>, CatalogError>(
                cat.entries@,
            ),
        decreases rest@.len(),
    {
        let rec = rest.remove(0);
        let ghost prefix = orig.subrange(0, k + 1);
        let ghost before = cat.entries@;
        assert(prefix.drop_last() =~= orig.subrange(0, k as int));
        assert(prefix.last() == rec);
        match Datasource::from_record(rec) {
            Err(e) => {
                proof {
                    lemma_catalog_error_persists(orig, k + 1);
                }
                return Err(e);
            },
            Ok(d) => {
                let name = d.name().clone();
                match cat.position(&name) {
                    Some(j) => {
                        cat.entries.set(j, d);
                    },
                    None => {
                        cat.entries.push(d);
                    },
                }
                assert(spec_catalog(prefix) == Ok::<Seq<Datasource>, CatalogError>(cat.entries@));
            },
        }
        k = k + 1;
    }
    assert(orig.subrange(0, k as int) =~= orig);
    Ok(cat)
}

} // verus!
