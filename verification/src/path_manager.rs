//! The names from which the two file paths of a table are made.

use vstd::prelude::*;

verus! {

/// The directory, the table and the data instance that a store works on.
/// The schema file is `<dir>/<table>/org/dbdf.mfd`, the data file
/// `<dir>/<table>/org/data/<data>.mfd`.
#[derive(Debug)]
pub struct PathManager {
    /// The base directory.
    pub dir_path: String,
    /// The name of the table.
    pub table_name: String,
    /// The name of the data instance.
    pub data_name: String,
}

impl PathManager {
    /// Holds the three names as they are given.
    pub fn new(dir_path: String, table_name: String, data_name: String) -> (p: PathManager)
        ensures
            p.dir_path@ == dir_path@,
            p.table_name@ == table_name@,
            p.data_name@ == data_name@,
    {
        PathManager { dir_path, table_name, data_name }
    }
}

impl Clone for PathManager {
    fn clone(&self) -> (r: Self)
        ensures
            r.dir_path@ == self.dir_path@,
            r.table_name@ == self.table_name@,
            r.data_name@ == self.data_name@,
    {
        PathManager {
            dir_path: self.dir_path.clone(),
            table_name: self.table_name.clone(),
            data_name: self.data_name.clone(),
        }
    }
}

} // verus!
