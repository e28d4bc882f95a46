//! The catalog: which datasets there are, by name.

use crate::dataset::{Dataset, DatasetView};
use crate::table;
use crate::table::{Duplicate, Table};
use crate::text;
use crate::text::{glue, write_decimal};
use vstd::prelude::*;
use vstd::string::*;

verus! {

/// The version of the shape in which a catalog is stored.
pub const CATALOG_SCHEMA_VERSION: u32 = 1;

/// The datasets by their names, and the version of the shape in which they were stored; 0 for one
/// that did not say.
#[derive(Debug, Clone, PartialEq)]
pub struct Catalog {
    pub version: u32,
    pub datasets: Table<String, Dataset>,
}

/// What a [`Catalog`] stands for.
pub struct CatalogView {
    pub version: u32,
    pub datasets: Map<Seq<char>, DatasetView>,
}

impl DeepView for Catalog {
    type V = CatalogView;

    open spec fn deep_view(&self) -> CatalogView {
        CatalogView { version: self.version, datasets: self.datasets.contents() }
    }
}

impl Duplicate for Catalog {
    fn duplicate(&self) -> (r: Self) {
        Catalog { version: self.version, datasets: self.datasets.duplicate() }
    }
}

/// The catalog without datasets.
pub open spec fn empty_catalog() -> CatalogView {
    CatalogView { version: CATALOG_SCHEMA_VERSION, datasets: Map::empty() }
}

impl Default for Catalog {
    fn default() -> (r: Catalog)
        ensures
            r.deep_view() == empty_catalog(),
    {
        Catalog { version: CATALOG_SCHEMA_VERSION, datasets: Table::new() }
    }
}

/// What is wrong with a request to the catalog.
#[derive(Debug, Clone, PartialEq, Eq)]
pub enum CatalogError {
    /// There is no dataset of this name.
    NoSuchDataset(String),
    /// The catalog was stored by a later version.
    Newer(u32),
}

/// What a [`CatalogError`] stands for.
pub enum CatalogErrorView {
    NoSuchDataset(Seq<char>),
    Newer(u32),
}

impl DeepView for CatalogError {
    type V = CatalogErrorView;

    open spec fn deep_view(&self) -> CatalogErrorView {
        match self {
            CatalogError::NoSuchDataset(n) => CatalogErrorView::NoSuchDataset(n@),
            CatalogError::Newer(v) => CatalogErrorView::Newer(*v),
        }
    }
}

impl CatalogErrorView {
    /// The words of the error.
    pub open spec fn words(self) -> Seq<char> {
        match self {
            CatalogErrorView::NoSuchDataset(n) => text::glued(seq!["no such dataset `"@, n, "`"@]),
            CatalogErrorView::Newer(v) => text::glued(
                seq![
                    "catalog schema version "@,
                    text::decimal_text(v as nat),
                    " is newer than this build supports (1); upgrade ce-query"@,
                ],
            ),
        }
    }
}

impl CatalogError {
    /// The words of the error.
    pub fn message(&self) -> (r: String)
        ensures
            r@ == self.deep_view().words(),
    {
        match self {
            CatalogError::NoSuchDataset(n) => {
                let parts: Vec<String> = vec![
                    "no such dataset `".to_owned(),
                    n.clone(),
                    "`".to_owned(),
                ];
                proof {
                    assert(parts.deep_view() =~= seq!["no such dataset `"@, n@, "`"@]);
                }
                glue(&parts)
            },
            CatalogError::Newer(v) => {
                let parts: Vec<String> = vec![
                    "catalog schema version ".to_owned(),
                    write_decimal(*v as u128),
                    " is newer than this build supports (1); upgrade ce-query".to_owned(),
                ];
                proof {
                    assert(parts.deep_view() =~= seq![
                        "catalog schema version "@,
                        text::decimal_text(*v as nat),
                        " is newer than this build supports (1); upgrade ce-query"@,
                    ]);
                }
                glue(&parts)
            },
        }
    }
}

impl Catalog {
    /// The catalog without datasets.
    pub fn new() -> (r: Catalog)
        ensures
            r.deep_view() == empty_catalog(),
    {
        Catalog::default()
    }

    /// Brings a catalog that was loaded to the current version. One of a later version is refused,
    /// and left as it is.
    pub fn migrate(&mut self) -> (r: Result<(), CatalogError>)
        ensures
            r is Ok <==> old(self).version <= CATALOG_SCHEMA_VERSION,
            r matches Err(e) ==> e.deep_view() == CatalogErrorView::Newer(old(self).version)
                && final(self).deep_view() == old(self).deep_view(),
            r is Ok ==> final(self).deep_view() == (CatalogView {
                version: CATALOG_SCHEMA_VERSION,
                ..old(self).deep_view()
            }),
    {
        if self.version > CATALOG_SCHEMA_VERSION {
            return Err(CatalogError::Newer(self.version));
        }
        self.version = CATALOG_SCHEMA_VERSION;
        Ok(())
    }

    /// The catalog as it is stored: of the current version.
    pub fn stamped(&self) -> (r: Catalog)
        ensures
            r.deep_view() == (CatalogView {
                version: CATALOG_SCHEMA_VERSION,
                ..self.deep_view()
            }),
    {
        Catalog { version: CATALOG_SCHEMA_VERSION, datasets: self.datasets.duplicate() }
    }

    /// Puts a dataset in under its name; the one that was there before.
    pub fn put(&mut self, dataset: Dataset) -> (r: Option<Dataset>)
        ensures
            final(self).deep_view() == (CatalogView {
                datasets: old(self).deep_view().datasets.insert(
                    dataset.deep_view().name,
                    dataset.deep_view(),
                ),
                ..old(self).deep_view()
            }),
            r is Some <==> old(self).deep_view().datasets.dom().contains(dataset.deep_view().name),
            r matches Some(d) ==> d.deep_view()
                == old(self).deep_view().datasets[dataset.deep_view().name],
    {
        let name: String = dataset.name.clone();
        let ghost was = self.datasets.contents();
        let ghost n = name@;
        let ghost d = dataset.deep_view();
        let former: Option<Dataset> = self.datasets.remove(&name);
        self.datasets.insert(name, dataset);
        proof {
            assert(self.datasets.contents() =~= was.insert(n, d));
        }
        former
    }

    /// The dataset of a name.
    pub fn get(&self, name: &str) -> (r: Option<&Dataset>)
        ensures
            r is Some <==> self.deep_view().datasets.dom().contains(name@),
            r matches Some(d) ==> d.deep_view() == self.deep_view().datasets[name@],
    {
        self.datasets.get(&name.to_owned())
    }

    /// The dataset of a name, or an error where there is none.
    pub fn require(&self, name: &str) -> (r: Result<&Dataset, CatalogError>)
        ensures
            r is Ok <==> self.deep_view().datasets.dom().contains(name@),
            r matches Ok(d) ==> d.deep_view() == self.deep_view().datasets[name@],
            r matches Err(e) ==> e.deep_view() == CatalogErrorView::NoSuchDataset(name@),
    {
        match self.datasets.get(&name.to_owned()) {
            Some(d) => Ok(d),
            None => Err(CatalogError::NoSuchDataset(name.to_owned())),
        }
    }

    /// Takes the dataset of a name out, or gives an error where there is none.
    pub fn remove(&mut self, name: &str) -> (r: Result<Dataset, CatalogError>)
        ensures
            r is Ok <==> old(self).deep_view().datasets.dom().contains(name@),
            r matches Ok(d) ==> d.deep_view() == old(self).deep_view().datasets[name@],
            r matches Err(e) ==> e.deep_view() == CatalogErrorView::NoSuchDataset(name@),
            final(self).deep_view() == (CatalogView {
                datasets: old(self).deep_view().datasets.remove(name@),
                ..old(self).deep_view()
            }),
    {
        match self.datasets.remove(&name.to_owned()) {
            Some(d) => Ok(d),
            None => Err(CatalogError::NoSuchDataset(name.to_owned())),
        }
    }

    /// The names of the datasets, in order.
    pub fn names(&self) -> (r: Vec<String>)
        ensures
            r.deep_view() == table::listing::<String>(self.deep_view().datasets.dom()),
            table::lists::<String>(r.deep_view(), self.deep_view().datasets.dom()),
    {
        let n: usize = self.datasets.len();
        let mut out: Vec<String> = Vec::new();
        let mut i: usize = 0;
        while i < n
            invariant
                i <= n == self.datasets.keys().len(),
                out@.len() == i,
                forall|j: int| 0 <= j < i ==> (#[trigger] out@[j])@ == self.datasets.keys()[j],
            decreases n - i,
        {
            out.push(self.datasets.key_at(i).clone());
            i = i + 1;
        }
        proof {
            assert(out.deep_view() =~= self.datasets.keys());
        }
        out
    }
}

/// A dataset that was put in is found under its name, and one that was taken out is not; others stay
/// as they were.
pub proof fn lemma_put_get_remove(
    before: Map<Seq<char>, DatasetView>,
    d: DatasetView,
    other: Seq<char>,
)
    requires
        other != d.name,
    ensures
        before.insert(d.name, d).dom().contains(d.name),
        before.insert(d.name, d)[d.name] == d,
        !before.insert(d.name, d).remove(d.name).dom().contains(d.name),
        before.insert(d.name, d).dom().contains(other) <==> before.dom().contains(other),
        before.dom().contains(other) ==> before.insert(d.name, d)[other] == before[other],
        !before.dom().contains(d.name) ==> before.insert(d.name, d).remove(d.name) == before,
{
    if !before.dom().contains(d.name) {
        assert(before.insert(d.name, d).remove(d.name) =~= before);
    }
}

/// What to do about a lock that another process holds.
#[derive(Debug, Clone, Copy, PartialEq, Eq, Structural)]
pub enum LockStep {
    /// Remove the lock: who held it is gone.
    Reclaim,
    /// Give up.
    GiveUp,
    /// Wait and try again.
    Wait,
}

/// The age in seconds above which a lock counts as left behind.
pub const STALE_LOCK_SECS: u64 = 60;

/// What to do about a lock that another process holds: `age` is for how many whole seconds, where
/// that can be told, and whether some fraction of one more has passed; `waited` and `timeout` are in
/// milliseconds.
pub fn lock_step(age: Option<(u64, bool)>, waited: u64, timeout: u64) -> (r: LockStep)
    ensures
        r == (if age matches Some((secs, more)) && (secs > STALE_LOCK_SECS || (secs == STALE_LOCK_SECS
            && more)) {
            LockStep::Reclaim
        } else if waited >= timeout {
            LockStep::GiveUp
        } else {
            LockStep::Wait
        }),
{
    if let Some((secs, more)) = age {
        if secs > STALE_LOCK_SECS || (secs == STALE_LOCK_SECS && more) {
            return LockStep::Reclaim;
        }
    }
    if waited >= timeout {
        LockStep::GiveUp
    } else {
        LockStep::Wait
    }
}

} // verus!
