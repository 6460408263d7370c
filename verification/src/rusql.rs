//! The catalog: the tables of a database, by name.

use vstd::prelude::*;
use crate::definitions::TableDef;
use crate::error::Error;
use crate::table::{Table, TableView};

verus! {

/// The name at position `i` is `name`.
pub open spec fn name_at(names: Seq<String>, name: Seq<char>, i: int) -> bool {
    0 <= i < names.len() && names[i]@ == name
}

/// No two positions hold the same name.
pub open spec fn distinct_names(names: Seq<String>) -> bool {
    forall|i: int, j: int| 0 <= i < j < names.len() ==> names[i]@ != names[j]@
}

/// Mathematical content of a catalog: the content of each table, by name.
pub type CatalogView = Map<Seq<char>, TableView>;

/// The catalog after `CREATE TABLE`: with "if not exists" a table of that
/// name stays as it is; otherwise the new, empty table takes the name,
/// and a table that had it is gone.
pub open spec fn create_table(catalog: CatalogView, def: TableDef) -> CatalogView {
    if def.if_not_exists && catalog.contains_key(def.table_name@) {
        catalog
    } else {
        catalog.insert(def.table_name@, TableView::from_def(def))
    }
}

/// The catalog after a table was renamed: the table stands under the new
/// name, in place of any table that had that name. The table's own record
/// of the name it was created with is not touched.
pub open spec fn rename_table(catalog: CatalogView, old_name: Seq<char>, new_name: Seq<char>) -> Result<
    CatalogView,
    Error,
> {
    if catalog.contains_key(old_name) {
        Ok(catalog.remove(old_name).insert(new_name, catalog[old_name]))
    } else {
        Err(Error::UnknownTable)
    }
}

/// The tables of a database, by name: at most one table for each name.
pub struct Rusql {
    names: Vec<String>,
    tables: Vec<Table>,
}

impl View for Rusql {
    type V = CatalogView;

    closed spec fn view(&self) -> CatalogView {
        Map::new(
            |name: Seq<char>| exists|i: int| name_at(self.names@, name, i),
            |name: Seq<char>| self.tables@[choose|i: int| name_at(self.names@, name, i)]@,
        )
    }
}

impl Rusql {
    /// One table for each name, at the position of its name.
    pub closed spec fn inv(&self) -> bool {
        &&& self.names@.len() == self.tables@.len()
        &&& distinct_names(self.names@)
    }

    /// The invariant of a catalog: it holds finitely many tables, and every
    /// table in it is well formed.
    pub open spec fn wf(&self) -> bool {
        &&& self.inv()
        &&& self@.dom().finite()
        &&& forall|name: Seq<char>| #[trigger]
            self@.contains_key(name) ==> self@[name].well_formed()
    }

    proof fn lemma_entry(&self, i: int)
        requires
            self.inv(),
            0 <= i < self.names@.len(),
        ensures
            self@.contains_key(self.names@[i]@),
            self@[self.names@[i]@] == self.tables@[i]@,
    {
        let name = self.names@[i]@;
        assert(name_at(self.names@, name, i));
        let j = choose|j: int| name_at(self.names@, name, j);
        if j < i {
            assert(self.names@[j]@ != self.names@[i]@);
        }
        if i < j {
            assert(self.names@[i]@ != self.names@[j]@);
        }
    }

    /// An empty catalog.
    pub fn new() -> (db: Rusql)
        ensures
            db@ == Map::<Seq<char>, TableView>::empty(),
            db.wf(),
    {
        let db = Rusql { names: Vec::new(), tables: Vec::new() };
        assert(db@ =~= Map::<Seq<char>, TableView>::empty());
        db
    }

    /// Where the table called `name` stands.
    fn position(&self, name: &String) -> (r: Option<usize>)
        requires
            self.inv(),
        ensures
            match r {
                Some(i) => name_at(self.names@, name@, i as int) && self@.contains_key(name@)
                    && self@[name@] == self.tables@[i as int]@,
                None => !self@.contains_key(name@) && forall|i: int|
                    0 <= i < self.names@.len() ==> self.names@[i]@ != name@,
            },
    {
        let mut i: usize = 0;
        while i < self.names.len()
            invariant
                self.inv(),
                i <= self.names@.len(),
                forall|j: int| 0 <= j < i ==> self.names@[j]@ != name@,
            decreases self.names@.len() - i,
        {
            if self.names[i] == *name {
                proof {
                    self.lemma_entry(i as int);
                }
                return Some(i);
            }
            i += 1;
        }
        None
    }

    /// The table called `name`.
    pub fn get_table(&self, name: &String) -> (r: Result<&Table, Error>)
        requires
            self.wf(),
        ensures
            match r {
                Ok(table) => self@.contains_key(name@) && table@ == self@[name@] && table.wf(),
                Err(e) => e == Error::UnknownTable && !self@.contains_key(name@),
            },
    {
        match self.position(name) {
            Some(i) => Ok(&self.tables[i]),
            None => Err(Error::UnknownTable),
        }
    }

    /// The table called `name`, to be changed in place.
    pub fn get_mut_table(&mut self, name: &String) -> (r: Result<&mut Table, Error>)
        requires
            old(self).wf(),
        ensures
            match r {
                Ok(table) => old(self)@.contains_key(name@) && table@ == old(self)@[name@]
                    && table.wf() && final(self)@ == old(self)@.insert(name@, final(table)@) && (
                final(table).wf() ==> final(self).wf()),
                Err(e) => e == Error::UnknownTable && !old(self)@.contains_key(name@) && *final(self) == *old(self),
            },
    {
        match self.position(name) {
            Some(i) => {
                Ok(&mut self.tables[i])
            },
            None => Err(Error::UnknownTable),
        }
    }

    /// `CREATE TABLE`. Under a name that the catalog does not hold yet the
    /// catalog gets one more table; under a name that it holds, the table
    /// of that name is replaced, or stays with "if not exists", and the
    /// number of tables stays. Every other table stays as it is.
    pub fn create_table(&mut self, table_def: TableDef)
        requires
            old(self).wf(),
        ensures
            final(self)@ == create_table(old(self)@, table_def),
            final(self).wf(),
            final(self)@.dom().len() == if old(self)@.contains_key(table_def.table_name@) {
                old(self)@.dom().len()
            } else {
                old(self)@.dom().len() + 1
            },
    {
        let found = self.position(&table_def.table_name);
        if table_def.if_not_exists && found.is_some() {
            return ;
        }
        let ghost name = table_def.table_name@;
        let ghost fresh = TableView::from_def(table_def);
        match found {
            Some(i) => {
                let table = Table::new(table_def);
                self.tables[i] = table;
                proof {
                    assert forall|n: Seq<char>| #[trigger] self@.contains_key(n) implies self@[n]
                        == old(self)@.insert(name, fresh)[n] by {
                        let j = choose|j: int| name_at(self.names@, n, j);
                        self.lemma_entry(j);
                        old(self).lemma_entry(j);
                    }
                    assert(self@ =~= old(self)@.insert(name, fresh));
                }
            },
            None => {
                let table_name = table_def.table_name.clone();
                let table = Table::new(table_def);
                self.names.push(table_name);
                self.tables.push(table);
                proof {
                    let last = old(self).names@.len() as int;
                    assert(name_at(self.names@, name, last));
                    assert forall|n: Seq<char>| #[trigger]
                        old(self)@.insert(name, fresh).contains_key(n) implies self@.contains_key(
                        n,
                    ) by {
                        if n != name {
                            let j = choose|j: int| name_at(old(self).names@, n, j);
                            assert(name_at(self.names@, n, j));
                        }
                    }
                    assert forall|n: Seq<char>| #[trigger] self@.contains_key(n) implies old(self)@.insert(name, fresh).contains_key(n) && self@[n] == old(self)@.insert(
                        name,
                        fresh,
                    )[n] by {
                        let j = choose|j: int| name_at(self.names@, n, j);
                        self.lemma_entry(j);
                        if j < last {
                            assert(name_at(old(self).names@, n, j));
                            old(self).lemma_entry(j);
                        }
                    }
                    assert(self@ =~= old(self)@.insert(name, fresh));
                }
            },
        }
    }

    /// `DROP TABLE`. Where no table is called `name`, nothing happens;
    /// where one is, the catalog has one table less.
    pub fn drop_table(&mut self, name: &String)
        requires
            old(self).wf(),
        ensures
            final(self)@ == old(self)@.remove(name@),
            final(self).wf(),
            old(self)@.dom().len() == if old(self)@.contains_key(name@) {
                final(self)@.dom().len() + 1
            } else {
                final(self)@.dom().len()
            },
    {
        match self.position(name) {
            Some(i) => {
                self.remove_at(i);
            },
            None => {
                assert(self@ =~= old(self)@.remove(name@));
            },
        }
    }

    /// Takes the entry at position `i` out of the catalog.
    fn remove_at(&mut self, i: usize) -> (table: Table)
        requires
            old(self).wf(),
            i < old(self).names@.len(),
        ensures
            final(self)@ == old(self)@.remove(old(self).names@[i as int]@),
            final(self).wf(),
            table@ == old(self)@[old(self).names@[i as int]@],
            table.wf(),
            final(self).names@ == old(self).names@.remove(i as int),
    {
        proof {
            old(self).lemma_entry(i as int);
        }
        self.names.remove(i);
        let table = self.tables.remove(i);
        proof {
            let gone = old(self).names@[i as int]@;
            assert forall|n: Seq<char>| #[trigger]
                old(self)@.remove(gone).contains_key(n) implies self@.contains_key(n) by {
                let j = choose|j: int| name_at(old(self).names@, n, j);
                if j < i {
                    assert(name_at(self.names@, n, j));
                } else {
                    assert(name_at(self.names@, n, j - 1));
                }
            }
            assert forall|n: Seq<char>| #[trigger] self@.contains_key(n) implies old(self)@.remove(
                gone,
            ).contains_key(n) && self@[n] == old(self)@.remove(gone)[n] by {
                let j = choose|j: int| name_at(self.names@, n, j);
                self.lemma_entry(j);
                if j < i {
                    old(self).lemma_entry(j);
                } else {
                    old(self).lemma_entry(j + 1);
                }
            }
            assert(self@ =~= old(self)@.remove(gone));
        }
        table
    }

    /// Puts the table called `old_name` under `new_name`, in place of any
    /// table that had that name.
    pub fn rename_table(&mut self, old_name: &String, new_name: String) -> (r: Result<(), Error>)
        requires
            old(self).wf(),
        ensures
            final(self).wf(),
            match r {
                Ok(()) => rename_table(old(self)@, old_name@, new_name@) == Ok::<
                    CatalogView,
                    Error,
                >(final(self)@),
                Err(e) => rename_table(old(self)@, old_name@, new_name@) == Err::<
                    CatalogView,
                    Error,
                >(e) && *final(self) == *old(self),
            },
    {
        match self.position(old_name) {
            Some(i) => {
                let table = self.remove_at(i);
                self.drop_table(&new_name);
                let ghost between = self@;
                let ghost before = *self;
                self.names.push(new_name);
                self.tables.push(table);
                proof {
                    let target = between.insert(new_name@, table@);
                    let last = before.names@.len() as int;
                    assert(name_at(self.names@, new_name@, last));
                    assert forall|i: int, j: int| 0 <= i < j < self.names@.len() implies self.names@[i]@
                        != self.names@[j]@ by {
                        if j == last {
                            if self.names@[i]@ == new_name@ {
                                assert(name_at(before.names@, new_name@, i));
                                assert(between.contains_key(new_name@));
                            }
                        } else {
                            assert(before.names@[i]@ != before.names@[j]@);
                        }
                    }
                    assert(self.inv());
                    assert forall|n: Seq<char>| #[trigger]
                        target.contains_key(n) implies self@.contains_key(n) by {
                        if n != new_name@ {
                            let j = choose|j: int| name_at(before.names@, n, j);
                            assert(name_at(self.names@, n, j));
                        }
                    }
                    assert forall|n: Seq<char>| #[trigger] self@.contains_key(n) implies target.contains_key(
                        n,
                    ) && self@[n] == target[n] by {
                        let j = choose|j: int| name_at(self.names@, n, j);
                        self.lemma_entry(j);
                        if j < last {
                            assert(name_at(before.names@, n, j));
                            before.lemma_entry(j);
                        }
                    }
                    assert(self@ =~= target);
                    assert(target =~= old(self)@.remove(old_name@).insert(
                        new_name@,
                        old(self)@[old_name@],
                    ));
                }
                Ok(())
            },
            None => Err(Error::UnknownTable),
        }
    }
}

} // verus!
