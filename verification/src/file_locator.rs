//! Pure decisions of the class-locator: which directory entries the
//! workspace walk keeps, which files count as TypeScript sources, and
//! whether a file's text declares a class.  The walk itself (directory
//! traversal and file reads) lives with the host; it calls these
//! predicates entry by entry.

use vstd::prelude::*;
use vstd::string::{StringExecFns, StrSliceExecFns, StringSliceAdditionalSpecFns};
use vstd::utf8::encode_utf8;

use crate::text::{contains_bytes, contains_slice, str_eq};

verus! {

/// Locator for the source file declaring a class, rooted at a
/// workspace directory.
pub struct FileLocator {
    pub workspace_path: String,
}

/// Position just after the last occurrence of `ch`, or 0 when `ch`
/// does not occur.
pub open spec fn after_last(s: Seq<u8>, ch: u8) -> int
    decreases s.len(),
{
    if s.len() == 0 {
        0
    } else if s.last() == ch {
        s.len() as int
    } else {
        after_last(s.drop_last(), ch)
    }
}

proof fn lemma_after_last_bounds(s: Seq<u8>, ch: u8)
    ensures
        0 <= after_last(s, ch) <= s.len(),
    decreases s.len(),
{
    if s.len() > 0 && s.last() != ch {
        lemma_after_last_bounds(s.drop_last(), ch);
    }
}

/// The extension of the path's final component: the bytes after the
/// component's last dot.  A name without a dot, or whose only dot
/// leads it (a hidden file), has none.
pub open spec fn extension_of(path: Seq<u8>) -> Option<Seq<u8>> {
    let name = path.subrange(after_last(path, 47), path.len() as int);
    let dot = after_last(name, 46);
    if dot <= 1 {
        None
    } else {
        Some(name.subrange(dot, name.len() as int))
    }
}

/// A TypeScript source: extension `ts` or `tsx`.
pub open spec fn path_is_typescript(path: Seq<u8>) -> bool {
    extension_of(path) == Some(seq![116u8, 115u8])
    || extension_of(path) == Some(seq![116u8, 115u8, 120u8])
}

/// Directories whose contents the search never visits.
pub open spec fn is_skipped_dir(c: Seq<char>) -> bool {
    ||| c == "node_modules"@
    ||| c == "dist"@
    ||| c == "out"@
    ||| c == "build"@
    ||| c == ".git"@
    ||| c == ".vscode"@
    ||| c == "target"@
    ||| c == "coverage"@
}

/// A hidden name: it starts with a dot and is not the current
/// directory itself.
pub open spec fn hidden_name(c: Seq<char>) -> bool {
    c.len() > 0 && c[0] == '.' && c != "."@
}

/// Views of a component list.
pub open spec fn component_views(s: Seq<String>) -> Seq<Seq<char>> {
    Seq::new(s.len(), |i: int| s[i]@)
}

/// An entry is searched when no component is a skipped directory and
/// its file name (the last component) is not hidden.
pub open spec fn should_include_spec(components: Seq<Seq<char>>) -> bool {
    &&& forall|i: int| 0 <= i < components.len() ==> !is_skipped_dir(#[trigger] components[i])
    &&& (components.len() == 0 || !hidden_name(components.last()))
}

/// The text declares the class when it contains `class ` followed by
/// the class name; every declaration form matched (`class X`,
/// `export class X`, `export default class X`) embeds that sequence.
pub open spec fn contains_class_spec(content: Seq<char>, class_name: Seq<char>) -> bool {
    contains_bytes(encode_utf8(content), encode_utf8("class "@ + class_name))
}

/// Position just after the last occurrence of `ch` at or past `from`,
/// relative to `from`.
fn after_last_from(s: &[u8], ch: u8, from: usize) -> (r: usize)
    requires
        from <= s@.len(),
    ensures
        r as int == after_last(s@.subrange(from as int, s@.len() as int), ch),
{
    let n = s.len();
    let mut i: usize = n;
    while i > from
        invariant
            n == s@.len(),
            from <= i <= n,
            after_last(s@.subrange(from as int, n as int), ch)
                == after_last(s@.subrange(from as int, i as int), ch),
        decreases i,
    {
        let ghost pre = s@.subrange(from as int, i as int);
        if s[i - 1] == ch {
            proof {
                assert(pre.last() == s@[i - 1]);
            }
            return i - from;
        }
        proof {
            assert(pre.last() == s@[i - 1]);
            assert(pre.drop_last() =~= s@.subrange(from as int, i - 1));
        }
        i = i - 1;
    }
    proof {
        assert(s@.subrange(from as int, from as int).len() == 0);
    }
    0
}

impl FileLocator {
    /// A locator rooted at the given workspace directory.
    pub fn new(workspace_path: String) -> (r: Self)
        ensures
            r.workspace_path == workspace_path,
    {
        FileLocator { workspace_path }
    }

    /// Whether a path names a TypeScript source file.
    pub fn is_typescript_file(&self, path: &str) -> (r: bool)
        ensures
            r == path_is_typescript(path.spec_bytes()),
    {
        let bytes = path.as_bytes();
        let n = bytes.len();
        proof {
            assert(bytes@.subrange(0, n as int) =~= bytes@);
            lemma_after_last_bounds(bytes@, 47);
        }
        let start = after_last_from(bytes, 47, 0);
        let ghost name = bytes@.subrange(after_last(bytes@, 47), n as int);
        proof {
            lemma_after_last_bounds(name, 46);
        }
        let dot = after_last_from(bytes, 46, start);
        if dot <= 1 {
            return false;
        }
        let ext_start = start + dot;
        proof {
            assert(name.subrange(dot as int, name.len() as int)
                =~= bytes@.subrange(ext_start as int, n as int));
        }
        if n - ext_start == 2 {
            let r = bytes[ext_start] == 116 && bytes[ext_start + 1] == 115;
            proof {
                if r {
                    assert(bytes@.subrange(ext_start as int, n as int) =~= seq![116u8, 115u8]);
                } else {
                    assert(bytes@.subrange(ext_start as int, n as int) != seq![116u8, 115u8]) by {
                        if bytes@.subrange(ext_start as int, n as int) =~= seq![116u8, 115u8] {
                            assert(bytes@[ext_start as int] == 116 && bytes@[ext_start + 1] == 115);
                        }
                    }
                }
                assert(bytes@.subrange(ext_start as int, n as int).len() == 2);
            }
            r
        } else if n - ext_start == 3 {
            let r = bytes[ext_start] == 116 && bytes[ext_start + 1] == 115
                && bytes[ext_start + 2] == 120;
            proof {
                if r {
                    assert(bytes@.subrange(ext_start as int, n as int)
                        =~= seq![116u8, 115u8, 120u8]);
                } else {
                    assert(bytes@.subrange(ext_start as int, n as int)
                        != seq![116u8, 115u8, 120u8]) by {
                        if bytes@.subrange(ext_start as int, n as int)
                            =~= seq![116u8, 115u8, 120u8] {
                            assert(bytes@[ext_start as int] == 116
                                && bytes@[ext_start + 1] == 115
                                && bytes@[ext_start + 2] == 120);
                        }
                    }
                }
            }
            r
        } else {
            proof {
                assert(bytes@.subrange(ext_start as int, n as int).len() != 2);
                assert(bytes@.subrange(ext_start as int, n as int).len() != 3);
            }
            false
        }
    }

    /// Whether a walked entry, given as its path components, belongs in
    /// the search.
    pub fn should_include_entry(&self, components: &Vec<String>) -> (r: bool)
        ensures
            r == should_include_spec(component_views(components@)),
    {
        let n = components.len();
        let mut i: usize = 0;
        while i < n
            invariant
                n == components@.len(),
                i <= n,
                forall|q: int| 0 <= q < i
                    ==> !is_skipped_dir(component_views(components@)[q]),
            decreases n - i,
        {
            let c = components[i].as_str();
            if str_eq(c, "node_modules") || str_eq(c, "dist") || str_eq(c, "out")
                || str_eq(c, "build") || str_eq(c, ".git") || str_eq(c, ".vscode")
                || str_eq(c, "target") || str_eq(c, "coverage") {
                proof {
                    assert(is_skipped_dir(component_views(components@)[i as int]));
                }
                return false;
            }
            i = i + 1;
        }
        if n > 0 {
            let last = components[n - 1].as_str();
            if !last.is_empty() {
                let first = last.get_char(0);
                if first == '.' && !str_eq(last, ".") {
                    proof {
                        assert(hidden_name(component_views(components@).last()));
                    }
                    return false;
                }
            }
        }
        true
    }

    /// Whether the file text contains a declaration of the class.
    pub fn contains_class(&self, content: &str, class_name: &str) -> (r: bool)
        ensures
            r == contains_class_spec(content@, class_name@),
    {
        let mut pat = String::from_str("class ");
        pat.append(class_name);
        contains_slice(content.as_bytes(), pat.as_str().as_bytes())
    }
}

} // verus!
