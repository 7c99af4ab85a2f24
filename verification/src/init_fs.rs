//! The initial file system: the object files that the boot loader placed in memory, as the
//! kernel reads them.

use vstd::prelude::*;
use vstd::string::{StrSliceExecFns, StringExecFns};
use vstd::utf8::{decode_utf8, valid_utf8};

use crate::boot_info::{trim_nuls, RootObjectInfo, RootObjectMap};
use crate::fs::{listed_paths, read_bytes, FileSystem};
use crate::loader::str_eq;
use crate::vfat::{has_prefix, str_starts_with};

verus! {

/// The name of a root object: its bytes as text, without the NUL padding.
pub open spec fn object_name(object: RootObjectInfo) -> Seq<char> {
    trim_nuls(decode_utf8(object.name@))
}

/// The path of each object whose name starts with `dir` (without its leading `/`): `/`, the
/// name and `.o`, in order.
pub open spec fn listed(objects: Seq<RootObjectInfo>, dir: Seq<char>) -> Seq<Seq<char>>
    decreases objects.len(),
{
    if objects.len() == 0 {
        Seq::empty()
    } else {
        let rest = listed(objects.drop_last(), dir);
        let name = object_name(objects.last());
        if has_prefix(name, dir) {
            rest.push("/"@ + name + ".o"@)
        } else {
            rest
        }
    }
}

/// The first object whose name is `name`.
pub open spec fn first_named(objects: Seq<RootObjectInfo>, name: Seq<char>) -> Option<int> {
    if exists|i: int| 0 <= i < objects.len() && object_name(#[trigger] objects[i]) == name {
        Some(
            choose|i: int|
                0 <= i < objects.len() && object_name(#[trigger] objects[i]) == name && forall|j: int|
                    0 <= j < i ==> object_name(#[trigger] objects[j]) != name,
        )
    } else {
        None
    }
}

/// Whether `path` is `/`, a name and `.o`.
pub open spec fn is_object_path(path: Seq<char>) -> bool {
    path.len() >= 3 && path[0] == '/' && path[path.len() - 2] == '.' && path[path.len() - 1] == 'o'
}

/// The object files that the boot loader placed in memory, each with the bytes it holds.
pub struct InitFileSystem {
    objects: Vec<RootObjectInfo>,
    contents: Vec<Vec<u8>>,
}

impl InitFileSystem {
    /// The objects.
    pub closed spec fn objects(&self) -> Seq<RootObjectInfo> {
        self.objects@
    }

    /// The bytes of each object.
    pub closed spec fn contents(&self) -> Seq<Seq<u8>> {
        self.contents@.map_values(|c: Vec<u8>| c@)
    }

    /// One content per object, as long as the object, and each object's name is text.
    #[verifier::type_invariant]
    closed spec fn wf(&self) -> bool {
        &&& self.contents@.len() == self.objects@.len()
        &&& forall|i: int|
            0 <= i < self.objects@.len() ==> valid_utf8(#[trigger] self.objects@[i].name@)
                && self.contents@[i]@.len() == self.objects@[i].size
    }

    /// The file system of the objects of `root_object_map`, whose bytes are `contents`.
    pub fn new(root_object_map: &RootObjectMap, contents: Vec<Vec<u8>>) -> (r: Self)
        requires
            contents@.len() == root_object_map.objects@.len(),
            forall|i: int|
                0 <= i < contents@.len() ==> valid_utf8(#[trigger] root_object_map.objects@[i].name@)
                    && contents@[i]@.len() == root_object_map.objects@[i].size,
        ensures
            r.objects() == root_object_map.objects@,
            r.contents() == contents@.map_values(|c: Vec<u8>| c@),
    {
        let mut objects: Vec<RootObjectInfo> = Vec::new();
        let mut i: usize = 0;
        while i < root_object_map.objects.len()
            invariant
                i <= root_object_map.objects@.len(),
                objects@ == root_object_map.objects@.take(i as int),
            decreases root_object_map.objects@.len() - i,
        {
            objects.push(root_object_map.objects[i]);
            proof {
                assert(objects@ =~= root_object_map.objects@.take(i + 1));
            }
            i = i + 1;
        }
        proof {
            assert(objects@ =~= root_object_map.objects@);
            assert forall|j: int| 0 <= j < objects@.len() implies valid_utf8(#[trigger] objects@[j].name@)
                && contents@[j]@.len() == objects@[j].size by {
                assert(objects@[j] == root_object_map.objects@[j]);
            }
            assert(contents@.len() == objects@.len());
        }
        InitFileSystem { objects, contents }
    }
}

proof fn lemma_first_named_scan(objects: Seq<RootObjectInfo>, name: Seq<char>, i: int)
    requires
        0 <= i <= objects.len(),
        forall|j: int| 0 <= j < i ==> object_name(#[trigger] objects[j]) != name,
    ensures
        i < objects.len() && object_name(objects[i]) == name ==> first_named(objects, name) == Some(i),
        i == objects.len() ==> first_named(objects, name) is None,
{
    if i < objects.len() && object_name(objects[i]) == name {
        let k = choose|k: int|
            0 <= k < objects.len() && object_name(#[trigger] objects[k]) == name && forall|j: int|
                0 <= j < k ==> object_name(#[trigger] objects[j]) != name;
        assert(object_name(objects[i]) == name);
        if k < i {
            assert(object_name(objects[k]) != name);
        }
        if k > i {
            assert(object_name(objects[i]) != name);
        }
    }
}

impl FileSystem for InitFileSystem {
    /// The paths of the objects whose names start with `dir_path` without its leading `/`; a
    /// failure when there are objects and `dir_path` does not start with `/`.
    open spec fn listing(&self, dir_path: Seq<char>, paths: Option<Seq<Seq<char>>>) -> bool {
        if self.objects().len() > 0 && (dir_path.len() == 0 || dir_path[0] != '/') {
            paths is None
        } else {
            paths == Some(listed(self.objects(), dir_path.drop_first()))
        }
    }

    /// The bytes of the first object named as `path` says, `/`, the name and `.o`; a failure
    /// when no object has that name, or when there are no objects or `path` has not that form.
    open spec fn reading(&self, path: Seq<char>, bytes: Option<Seq<u8>>) -> bool {
        if self.objects().len() == 0 || !is_object_path(path) {
            bytes is None
        } else {
            match first_named(self.objects(), path.subrange(1, path.len() - 2)) {
                Some(i) => bytes == Some(self.contents()[i]),
                None => bytes is None,
            }
        }
    }

    /// The paths of the objects whose names start with `dir_path` without its leading `/`; an
    /// error when there are objects and `dir_path` does not start with `/`.
    fn list(&self, dir_path: &str) -> (r: Result<Vec<String>, &'static str>)
        ensures
            self.objects().len() > 0 && (dir_path@.len() == 0 || dir_path@[0] != '/') ==> r is Err,
            self.objects().len() == 0 || (dir_path@.len() > 0 && dir_path@[0] == '/') ==> (r matches Ok(
                paths,
            ) && paths@.map_values(|p: String| p@) == listed(self.objects(), dir_path@.drop_first())),
    {
        proof {
            use_type_invariant(self);
            reveal_strlit("/");
        }
        let mut paths: Vec<String> = Vec::new();
        if self.objects.len() == 0 {
            proof {
                assert(paths@.map_values(|p: String| p@) =~= listed(self.objects(), dir_path@.drop_first()));
            }
            return Ok(paths);
        }
        let slash = str_starts_with(dir_path, "/");
        proof {
            if dir_path@.len() > 0 && dir_path@[0] == '/' {
                assert(dir_path@.subrange(0, 1) =~= "/"@);
            }
            if has_prefix(dir_path@, "/"@) {
                assert(dir_path@.subrange(0, 1)[0] == '/');
            }
        }
        if !slash {
            return Err("directory path does not start with `/`");
        }
        let n = dir_path.unicode_len();
        let dir = dir_path.substring_char(1, n);
        assert(dir@ =~= dir_path@.drop_first());
        let mut i: usize = 0;
        while i < self.objects.len()
            invariant
                i <= self.objects@.len(),
                forall|j: int| 0 <= j < self.objects@.len() ==> valid_utf8(#[trigger] self.objects@[j].name@),
                dir@ == dir_path@.drop_first(),
                paths@.map_values(|p: String| p@) == listed(self.objects@.take(i as int), dir@),
            decreases self.objects@.len() - i,
        {
            let name = self.objects[i].name_str();
            proof {
                assert(self.objects@.take(i + 1).drop_last() =~= self.objects@.take(i as int));
            }
            if str_starts_with(name, dir) {
                let mut path = String::new();
                path.append("/");
                path.append(name);
                path.append(".o");
                let ghost before = paths@.map_values(|p: String| p@);
                paths.push(path);
                proof {
                    assert(paths@.map_values(|p: String| p@) =~= before.push(path@));
                }
            }
            i = i + 1;
        }
        proof {
            assert(self.objects@.take(i as int) =~= self.objects@);
        }
        Ok(paths)
    }

    /// The bytes of the object at `path`, `/`, its name and `.o`; an error when no object has
    /// that name, or when there are objects and `path` has not that form.
    fn read(&mut self, path: &str) -> (r: Result<Vec<u8>, &'static str>)
        ensures
            final(self).objects() == old(self).objects(),
            final(self).contents() == old(self).contents(),
            old(self).objects().len() == 0 ==> r is Err,
            !is_object_path(path@) ==> r is Err,
            old(self).objects().len() > 0 && is_object_path(path@) ==> match first_named(
                old(self).objects(),
                path@.subrange(1, path@.len() - 2),
            ) {
                Some(i) => r matches Ok(bytes) && bytes@ == old(self).contents()[i],
                None => r is Err,
            },
    {
        proof {
            use_type_invariant(&*self);
        }
        if self.objects.len() == 0 {
            return Err("failed to read init object");
        }
        let n = path.unicode_len();
        if n < 3 || path.get_char(0) != '/' || path.get_char(n - 2) != '.' || path.get_char(n - 1) != 'o' {
            return Err("init object path is not `/`, a name and `.o`");
        }
        let name = path.substring_char(1, n - 2);
        let mut i: usize = 0;
        while i < self.objects.len()
            invariant
                i <= self.objects@.len(),
                self.contents@.len() == self.objects@.len(),
                forall|j: int| 0 <= j < self.objects@.len() ==> valid_utf8(#[trigger] self.objects@[j].name@),
                name@ == path@.subrange(1, path@.len() - 2),
                is_object_path(path@),
                forall|j: int| 0 <= j < i ==> object_name(#[trigger] self.objects@[j]) != name@,
            decreases self.objects@.len() - i,
        {
            let object_name_str = self.objects[i].name_str();
            if str_eq(name, object_name_str) {
                proof {
                    lemma_first_named_scan(self.objects@, name@, i as int);
                }
                let bytes = self.contents[i].clone();
                return Ok(bytes);
            }
            i = i + 1;
        }
        proof {
            lemma_first_named_scan(self.objects@, name@, i as int);
        }
        Err("failed to read init object")
    }
}

} // verus!
