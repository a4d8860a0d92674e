//! What the library knows of class path entries that are `.jar` files: the name of the
//! entry that holds a class, and the errors met when opening one.
use vstd::prelude::*;

verus! {

/// The name of the entry of a `.jar` file that holds the class file of a class.
pub fn class_file_name(class_name: &str) -> (res: String)
    ensures
        res@ == class_name@ + ".class"@,
{
    let mut name = String::from_str(class_name);
    name.append(".class");
    name
}

/// The errors met when opening a `.jar` file as a class path entry.
#[derive(Debug, PartialEq, Eq)]
pub enum JarFileError {
    NotFound(String),
    ReadingError(String),
    InvalidJar(String),
}

impl JarFileError {
    /// The description of the error, naming the file.
    pub fn message(&self) -> (res: String)
        ensures
            res@ == match self {
                JarFileError::NotFound(p) => "file "@ + p@ + " not found"@,
                JarFileError::ReadingError(p) => "error reading file "@ + p@,
                JarFileError::InvalidJar(p) => "file "@ + p@ + " is not a valid jar"@,
            },
    {
        match self {
            JarFileError::NotFound(p) => {
                let mut s = String::from_str("file ");
                s.append(p.as_str());
                s.append(" not found");
                s
            },
            JarFileError::ReadingError(p) => {
                let mut s = String::from_str("error reading file ");
                s.append(p.as_str());
                s
            },
            JarFileError::InvalidJar(p) => {
                let mut s = String::from_str("file ");
                s.append(p.as_str());
                s.append(" is not a valid jar");
                s
            },
        }
    }
}

} // verus!
