use vstd::prelude::*;
use vstd::string::StringExecFns;

verus! {

/// A protected file, by its path.
pub struct File {
    pub path: String,
}

impl File {
    pub fn new(path: &str) -> (r: File)
        ensures
            r.path@ == path@,
    {
        File { path: path.to_owned() }
    }
}

/// The path of `file_name` inside the directory `dir`.
pub open spec fn joined_path(dir: Seq<char>, file_name: Seq<char>) -> Seq<char> {
    dir + seq!['/'] + file_name
}

/// The directory of protected files.
pub struct FileHandler {
    pub storage_dir: String,
}

impl FileHandler {
    pub fn new(storage_dir: &str) -> (r: FileHandler)
        ensures
            r.storage_dir@ == storage_dir@,
    {
        FileHandler { storage_dir: storage_dir.to_owned() }
    }

    pub fn get_storage_dir(&self) -> (r: &str)
        ensures
            r@ == self.storage_dir@,
    {
        self.storage_dir.as_str()
    }

    /// The path of `file_name` inside the storage directory.
    pub fn prepare_file_path(&self, file_name: &str) -> (r: String)
        ensures
            r@ == joined_path(self.storage_dir@, file_name@),
    {
        let mut path = self.storage_dir.clone();
        proof {
            reveal_strlit("/");
        }
        path.append("/");
        path.append(file_name);
        path
    }

    /// The protected file named `file_name` inside the storage directory.
    pub fn create_file(&self, file_name: &str) -> (r: File)
        ensures
            r.path@ == joined_path(self.storage_dir@, file_name@),
    {
        let path = self.prepare_file_path(file_name);
        File::new(path.as_str())
    }
}

} // verus!
