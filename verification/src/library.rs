//! The library loader: bind a manifest to its schemas and CSV tables,
//! producing an in-memory library. File contents come in as plain values;
//! the contents to write back (freshly assigned ids) go out the same way.
use vstd::prelude::*;

verus! {

use crate::rowmap::CsvRow;
use crate::schema::{ResolvedSchema, SchemaDir, SchemaError, raw_at_wf, load_schema_post, opt_view,
    schema_outcome, ChainOutcome, SchemaFile, base_key, file_of, lemma_last_name_idx,
    last_name_idx};
use crate::store::{CsvError, id_key, load_csv_with_ids, load_ok_post, opt_str_view, ragged};
use crate::csvfmt::parse_records;

/// What can go wrong reading a library manifest.
#[derive(Debug)]
pub enum LibraryError {
    /// An input/output failure.
    Io(String),
    /// A manifest that did not parse.
    Yaml(String),
}

/// The manifest `library.yaml` at a library's root.
pub struct LibraryManifest {
    /// The library's name.
    pub name: String,
    /// Free-form description.
    pub description: Option<String>,
    /// The subdirectory holding the schema files.
    pub templates_path: String,
    /// The tables, in order.
    pub component_types: Vec<ComponentTypeDef>,
}

/// One table definition in the manifest.
pub struct ComponentTypeDef {
    /// The CSV file, relative to the library root.
    pub file: String,
    /// The schema name the table uses.
    pub template: String,
    /// The display name.
    pub name: String,
}

/// One loaded table: its rows and its resolved schema.
pub struct LoadedComponentType {
    /// The display name.
    pub name: String,
    /// The schema name the table uses.
    pub template_name: String,
    /// The rows, each with a unique non-empty `id`.
    pub components: Vec<CsvRow>,
    /// The resolved schema.
    pub template: ResolvedSchema,
}

/// A fully loaded library.
pub struct LoadedLibrary {
    /// The library's name.
    pub name: String,
    /// Free-form description.
    pub description: Option<String>,
    /// The tables, in manifest order.
    pub component_types: Vec<LoadedComponentType>,
}

impl LoadedLibrary {
    /// The tables, under their part-table name.
    pub fn part_tables(&self) -> (r: &Vec<LoadedComponentType>)
        ensures
            r == &self.component_types,
    {
        &self.component_types
    }
}

/// A failure loading a library, naming the culprit.
#[derive(Debug)]
pub enum ServerError {
    /// The manifest could not be read or parsed.
    Library(LibraryError),
    /// A schema did not resolve.
    Schema(SchemaError),
    /// A CSV table did not load.
    Csv(CsvError),
    /// Another input/output failure.
    Io(String),
}

/// A set of file contents keyed by file name, as read by the caller.
pub struct FileSet {
    names: Vec<String>,
    contents: Vec<String>,
}

impl FileSet {
    /// The file names present.
    pub closed spec fn name_seq(self) -> Seq<Seq<char>> {
        self.names.deep_view()
    }

    /// One content per name.
    pub closed spec fn wf(self) -> bool {
        self.names@.len() == self.contents@.len()
    }

    /// An empty set.
    pub fn new() -> (r: FileSet)
        ensures
            r.wf(),
            r.name_seq().len() == 0,
    {
        let r = FileSet { names: Vec::new(), contents: Vec::new() };
        proof {
            assert(r.name_seq() =~= Seq::<Seq<char>>::empty());
        }
        r
    }

    /// Record one file's contents: the name now resolves to them, and
    /// every other name resolves as before.
    pub fn add(&mut self, name: String, content: String)
        requires
            old(self).wf(),
        ensures
            final(self).wf(),
            final(self).name_seq() == old(self).name_seq().push(name@),
            final(self).content_of(name@) == Some(content@),
            forall|n: Seq<char>|
                n != name@ ==> final(self).content_of(n) == old(self).content_of(n),
    {
        let ghost c = content@;
        self.names.push(name);
        self.contents.push(content);
        proof {
            assert(self.name_seq() =~~= old(self).name_seq().push(
                self.names@[self.names@.len() - 1]@,
            ));
            let pre = old(self).name_seq();
            let post = self.name_seq();
            assert(post.drop_last() =~= pre);
            assert(post.last() == self.names@[self.names@.len() - 1]@);
            assert(last_name_idx(post, post.last()) == pre.len());
            assert(self.spec_content_at(pre.len() as int) == c);
            assert forall|n: Seq<char>| n != post.last() implies self.content_of(n) == old(
                self,
            ).content_of(n) by {
                assert(last_name_idx(post, n) == last_name_idx(pre, n));
                if last_name_idx(pre, n) >= 0 {
                    lemma_last_name_idx(pre, n);
                    assert(self.spec_content_at(last_name_idx(pre, n)) == old(
                        self,
                    ).spec_content_at(last_name_idx(pre, n)));
                }
            }
        }
    }

    /// The contents at position `i`.
    pub closed spec fn spec_content_at(self, i: int) -> Seq<char> {
        self.contents@[i]@
    }

    /// The contents a file name resolves to, if any; the latest entry for
    /// a name wins.
    pub open spec fn content_of(self, name: Seq<char>) -> Option<Seq<char>> {
        if last_name_idx(self.name_seq(), name) >= 0 {
            Some(self.spec_content_at(last_name_idx(self.name_seq(), name)))
        } else {
            None
        }
    }

    /// The contents recorded under `name`: the latest entry wins.
    pub fn lookup(&self, name: &String) -> (r: Option<&String>)
        requires
            self.wf(),
        ensures
            r is Some <==> self.content_of(name@) is Some,
            r matches Some(c) ==> Some(c@) == self.content_of(name@),
    {
        proof {
            lemma_last_name_idx(self.name_seq(), name@);
        }
        let mut i: usize = self.names.len();
        while i > 0
            invariant
                0 <= i <= self.names@.len(),
                self.wf(),
                forall|j: int| i <= j < self.name_seq().len() ==> self.name_seq()[j] != name@,
            decreases i,
        {
            i = i - 1;
            if self.names[i] == *name {
                proof {
                    assert(self.name_seq()[i as int] == name@);
                    lemma_last_name_idx(self.name_seq(), name@);
                    let l = last_name_idx(self.name_seq(), name@);
                    if l != i {
                        if l < 0 {
                            assert(self.name_seq()[i as int] != name@);
                        } else if l < i {
                            assert(self.name_seq()[i as int] != name@);
                        } else {
                            assert(self.name_seq()[l] != name@);
                        }
                    }
                    assert(l == i);
                    assert(self.spec_content_at(i as int) == self.contents@[i as int]@);
                }
                return Some(&self.contents[i]);
            }
            proof {
                assert(self.name_seq()[i as int] == self.names@[i as int]@);
            }
        }
        proof {
            lemma_last_name_idx(self.name_seq(), name@);
            let l = last_name_idx(self.name_seq(), name@);
            if l >= 0 {
                assert(self.name_seq()[l] != name@);
            }
        }
        None
    }
}

/// A table whose every row is well-formed and carries a unique non-empty
/// `id`.
pub open spec fn table_ok(rows: Seq<CsvRow>) -> bool {
    &&& forall|i: int| 0 <= i < rows.len() ==> (#[trigger] rows[i]).wf()
    &&& forall|i: int|
        0 <= i < rows.len() ==> (#[trigger] rows[i]).has_key(id_key()) && rows[i].spec_get(
            id_key(),
        ).len() > 0
    &&& forall|i: int, j: int|
        0 <= i < j < rows.len() ==> (#[trigger] rows[i]).spec_get(id_key()) != (
        #[trigger] rows[j]).spec_get(id_key())
}

/// Whether a schema name resolves in the directory: its chain walks to a
/// root or the directory default, and an owed default is present and
/// parsed.
pub open spec fn schema_resolves(dir: SchemaDir, name: Seq<char>) -> bool {
    match schema_outcome(dir, name) {
        ChainOutcome::Resolved(c, owed) => if owed {
            file_of(dir, base_key()) matches Some(SchemaFile::Parsed(b))
        } else {
            true
        },
        _ => false,
    }
}

/// Whether CSV text loads: it parses to a header row (possibly alone)
/// with no record disagreeing on width.
pub open spec fn csv_loads(content: Seq<char>) -> bool {
    &&& parse_records(content).len() > 0
    &&& !ragged(parse_records(content))
}

/// Whether one manifest table can be bound: its schema resolves and its
/// CSV file is present and loads.
pub open spec fn table_loads(
    manifest: LibraryManifest,
    schemas: SchemaDir,
    csv_files: FileSet,
    t: int,
) -> bool {
    &&& schema_resolves(schemas, manifest.component_types@[t].template@)
    &&& csv_files.content_of(manifest.component_types@[t].file@) matches Some(c) && csv_loads(c)
}

/// What binding table `t` produced: the manifest's names, the schema
/// exactly as `load_schema` resolves it, and the rows exactly as the CSV
/// store loads the file's contents, with `rw` the text written back.
pub open spec fn table_bound(
    manifest: LibraryManifest,
    schemas: SchemaDir,
    csv_files: FileSet,
    t: int,
    ct: LoadedComponentType,
    rw: Option<Seq<char>>,
) -> bool {
    &&& ct.name@ == manifest.component_types@[t].name@
    &&& ct.template_name@ == manifest.component_types@[t].template@
    &&& load_schema_post(schemas, manifest.component_types@[t].template@, Ok(ct.template))
    &&& load_ok_post(
        parse_records(csv_files.content_of(manifest.component_types@[t].file@)->Some_0),
        ct.components@,
        rw,
    )
}

/// Table `t` is bound, with its rewritten text — if the load assigned
/// ids — standing in the write-back list under the table's file name.
pub open spec fn table_recorded(
    manifest: LibraryManifest,
    schemas: SchemaDir,
    csv_files: FileSet,
    t: int,
    ct: LoadedComponentType,
    wbs: Seq<(String, String)>,
) -> bool {
    ||| exists|k: int|
        0 <= k < wbs.len() && (#[trigger] wbs[k]).0@ == manifest.component_types@[t].file@
            && table_bound(manifest, schemas, csv_files, t, ct, Some(wbs[k].1@))
    ||| table_bound(manifest, schemas, csv_files, t, ct, None)
}

/// A recorded table stays recorded when the write-back list grows.
proof fn lemma_recorded_grows(
    manifest: LibraryManifest,
    schemas: SchemaDir,
    csv_files: FileSet,
    t: int,
    ct: LoadedComponentType,
    wbs: Seq<(String, String)>,
    wbs2: Seq<(String, String)>,
)
    requires
        table_recorded(manifest, schemas, csv_files, t, ct, wbs),
        wbs2.len() >= wbs.len(),
        forall|k: int| 0 <= k < wbs.len() ==> #[trigger] wbs2[k] == wbs[k],
    ensures
        table_recorded(manifest, schemas, csv_files, t, ct, wbs2),
{
    if !table_bound(manifest, schemas, csv_files, t, ct, None) {
        let k = choose|k: int|
            0 <= k < wbs.len() && (#[trigger] wbs[k]).0@ == manifest.component_types@[t].file@
                && table_bound(manifest, schemas, csv_files, t, ct, Some(wbs[k].1@));
        assert(wbs2[k] == wbs[k]);
        assert((wbs2[k]).0@ == manifest.component_types@[t].file@ && table_bound(
            manifest,
            schemas,
            csv_files,
            t,
            ct,
            Some(wbs2[k].1@),
        ));
    }
}

/// Load a library from its manifest, its parsed templates directory, and
/// its CSV files' contents. Success comes exactly when every table binds;
/// each bound table carries the resolved schema and the loaded rows, and
/// any CSV whose ids had to be assigned yields a `(file, new contents)`
/// pair to write back.
pub fn load_library(
    manifest: &LibraryManifest,
    schemas: &SchemaDir,
    csv_files: &FileSet,
) -> (r: Result<(LoadedLibrary, Vec<(String, String)>), ServerError>)
    requires
        schemas.wf(),
        forall|i: int| 0 <= i < schemas.name_seq().len() ==> raw_at_wf(*schemas, i),
        csv_files.wf(),
    ensures
        r is Ok <==> (forall|t: int|
            0 <= t < manifest.component_types@.len() ==> table_loads(
                *manifest,
                *schemas,
                *csv_files,
                t,
            )),
        r matches Err(ServerError::Schema(se)) ==> exists|t: int|
            0 <= t < manifest.component_types@.len() && !schema_resolves(
                *schemas,
                (#[trigger] manifest.component_types@[t]).template@,
            ),
        r matches Err(ServerError::Io(m)) ==> exists|t: int|
            0 <= t < manifest.component_types@.len() && csv_files.content_of(
                (#[trigger] manifest.component_types@[t]).file@,
            ) is None,
        r matches Err(ServerError::Csv(ce)) ==> exists|t: int|
            0 <= t < manifest.component_types@.len() && (csv_files.content_of(
                (#[trigger] manifest.component_types@[t]).file@,
            ) matches Some(c) && !csv_loads(c)),
        r matches Ok(p) ==> {
            &&& p.0.name@ == manifest.name@
            &&& opt_view(p.0.description) == opt_view(manifest.description)
            &&& p.0.component_types@.len() == manifest.component_types@.len()
            &&& forall|t: int|
                0 <= t < p.0.component_types@.len() ==> table_ok(
                    (#[trigger] p.0.component_types@[t]).components@,
                )
            &&& forall|t: int|
                0 <= t < p.0.component_types@.len() ==> table_recorded(
                    *manifest,
                    *schemas,
                    *csv_files,
                    t,
                    #[trigger] p.0.component_types@[t],
                    p.1@,
                )
        },
{
    let mut component_types: Vec<LoadedComponentType> = Vec::new();
    let mut writebacks: Vec<(String, String)> = Vec::new();
    let mut t: usize = 0;
    while t < manifest.component_types.len()
        invariant
            0 <= t <= manifest.component_types@.len(),
            schemas.wf(),
            forall|i: int| 0 <= i < schemas.name_seq().len() ==> raw_at_wf(*schemas, i),
            csv_files.wf(),
            component_types@.len() == t,
            forall|j: int| 0 <= j < t ==> table_loads(*manifest, *schemas, *csv_files, j),
            forall|j: int|
                0 <= j < t ==> table_ok((#[trigger] component_types@[j]).components@),
            forall|j: int|
                0 <= j < t ==> table_recorded(
                    *manifest,
                    *schemas,
                    *csv_files,
                    j,
                    #[trigger] component_types@[j],
                    writebacks@,
                ),
        decreases manifest.component_types@.len() - t,
    {
        let ct_def = &manifest.component_types[t];
        let resolved = match crate::schema::load_schema(schemas, ct_def.template.as_str()) {
            Ok(rs) => rs,
            Err(e) => {
                proof {
                    assert(!schema_resolves(
                        *schemas,
                        manifest.component_types@[t as int].template@,
                    ));
                    assert(!table_loads(*manifest, *schemas, *csv_files, t as int));
                }
                return Err(ServerError::Schema(e));
            },
        };
        proof {
            assert(schema_resolves(*schemas, manifest.component_types@[t as int].template@));
            assert(load_schema_post(
                *schemas,
                manifest.component_types@[t as int].template@,
                Ok(resolved),
            ));
        }
        let content = match csv_files.lookup(&ct_def.file) {
            Some(c) => c,
            None => {
                proof {
                    assert(csv_files.content_of(manifest.component_types@[t as int].file@)
                        is None);
                    assert(!table_loads(*manifest, *schemas, *csv_files, t as int));
                }
                let mut msg = String::from_str("missing CSV file: ");
                msg.append(ct_def.file.as_str());
                return Err(ServerError::Io(msg));
            },
        };
        let loaded = match load_csv_with_ids(content.as_str()) {
            Ok(l) => l,
            Err(e) => {
                proof {
                    assert(!csv_loads(content@));
                    assert(!table_loads(*manifest, *schemas, *csv_files, t as int));
                }
                return Err(ServerError::Csv(e));
            },
        };
        proof {
            assert(csv_loads(content@));
            assert(table_loads(*manifest, *schemas, *csv_files, t as int));
        }
        let ghost rewv = opt_str_view(loaded.rewritten);
        let ghost wb_before = writebacks@;
        match loaded.rewritten {
            Some(w) => {
                writebacks.push((ct_def.file.clone(), w));
            },
            None => {},
        }
        let new_ct = LoadedComponentType {
            name: ct_def.name.clone(),
            template_name: ct_def.template.clone(),
            components: loaded.rows,
            template: resolved,
        };
        let ghost new_ctv = new_ct;
        component_types.push(new_ct);
        proof {
            assert(table_bound(*manifest, *schemas, *csv_files, t as int, new_ctv, rewv));
            assert(forall|k: int|
                0 <= k < wb_before.len() ==> #[trigger] writebacks@[k] == wb_before[k]);
            if rewv is Some {
                let kn = writebacks@.len() - 1;
                assert(writebacks@[kn].0@ == manifest.component_types@[t as int].file@);
                assert(table_bound(*manifest, *schemas, *csv_files, t as int, new_ctv, Some(
                    writebacks@[kn].1@,
                )));
                assert(table_recorded(
                    *manifest,
                    *schemas,
                    *csv_files,
                    t as int,
                    new_ctv,
                    writebacks@,
                ));
            } else {
                assert(table_recorded(
                    *manifest,
                    *schemas,
                    *csv_files,
                    t as int,
                    new_ctv,
                    writebacks@,
                ));
            }
            assert forall|j: int| 0 <= j < t + 1 implies table_recorded(
                *manifest,
                *schemas,
                *csv_files,
                j,
                #[trigger] component_types@[j],
                writebacks@,
            ) by {
                if j < t {
                    lemma_recorded_grows(
                        *manifest,
                        *schemas,
                        *csv_files,
                        j,
                        component_types@[j],
                        wb_before,
                        writebacks@,
                    );
                } else {
                    assert(component_types@[j] == new_ctv);
                }
            }
        }
        t = t + 1;
    }
    let description = match &manifest.description {
        Some(d) => Some(d.clone()),
        None => None,
    };
    proof {
        match &manifest.description {
            Some(d) => {
                assert(opt_view(description) == opt_view(manifest.description));
            },
            None => {
                assert(opt_view(description) == opt_view(manifest.description));
            },
        }
    }
    Ok((LoadedLibrary { name: manifest.name.clone(), description, component_types }, writebacks))
}

} // verus!} // verus!} // verus!
