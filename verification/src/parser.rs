//! Method search over a parsed TypeScript module.
//!
//! The search walks the shapes that matter to it — top-level class
//! declarations (plain, exported, or default-exported), their members,
//! and member names given as identifiers or string literals.  The host
//! parses source text with its syntax-tree library and converts the
//! tree into these shapes, recording for each member the 1-based line
//! of its declaration; the search itself is pure.

use vstd::prelude::*;

use crate::text::str_eq;

verus! {

/// A class member's name: an identifier, a string-literal property
/// name, or some other form the search does not match.
pub enum PropName {
    Ident(String),
    Str(String),
    Other,
}

/// A class member: a method with its declaration line, a private
/// method, or some other member.
pub enum ClassMember {
    Method { key: PropName, line: u32 },
    PrivateMethod { name: String, line: u32 },
    Other,
}

/// A class body.
pub struct Class {
    pub body: Vec<ClassMember>,
}

/// A top-level statement: a class declaration or anything else.
pub enum Stmt {
    ClassDecl(Class),
    Other,
}

/// A module-level declaration: an exported or default-exported class,
/// or anything else.
pub enum ModuleDecl {
    ExportClass(Class),
    ExportDefaultClass(Class),
    Other,
}

/// One item of a module's body.
pub enum ModuleItem {
    Stmt(Stmt),
    ModuleDecl(ModuleDecl),
}

/// A parsed module, reduced to the shapes the search reads.
pub struct Module {
    pub body: Vec<ModuleItem>,
}

/// The parser of TypeScript sources; the search methods below walk an
/// already-parsed module.
pub struct TypeScriptParser;

/// A property name matches the method name.
pub open spec fn prop_matches(p: PropName, name: Seq<char>) -> bool {
    match p {
        PropName::Ident(s) => s@ == name,
        PropName::Str(s) => s@ == name,
        PropName::Other => false,
    }
}

/// The line a member contributes for the method name, if it matches.
pub open spec fn member_line(m: ClassMember, name: Seq<char>) -> Option<u32> {
    match m {
        ClassMember::Method { key, line } => if prop_matches(key, name) {
            Some(line)
        } else {
            None
        },
        ClassMember::PrivateMethod { name: n, line } => if n@ == name {
            Some(line)
        } else {
            None
        },
        ClassMember::Other => None,
    }
}

/// First matching member's line.
pub open spec fn find_in_members(ms: Seq<ClassMember>, name: Seq<char>) -> Option<u32>
    decreases ms.len(),
{
    if ms.len() == 0 {
        None
    } else {
        match member_line(ms[0], name) {
            Some(l) => Some(l),
            None => find_in_members(ms.subrange(1, ms.len() as int), name),
        }
    }
}

pub open spec fn find_in_class_spec(c: Class, name: Seq<char>) -> Option<u32> {
    find_in_members(c.body@, name)
}

/// The line a statement contributes: only class declarations are
/// searched.
pub open spec fn stmt_line(s: Stmt, name: Seq<char>) -> Option<u32> {
    match s {
        Stmt::ClassDecl(c) => find_in_class_spec(c, name),
        Stmt::Other => None,
    }
}

/// The line a module declaration contributes: exported and
/// default-exported classes are searched.
pub open spec fn module_decl_line(d: ModuleDecl, name: Seq<char>) -> Option<u32> {
    match d {
        ModuleDecl::ExportClass(c) => find_in_class_spec(c, name),
        ModuleDecl::ExportDefaultClass(c) => find_in_class_spec(c, name),
        ModuleDecl::Other => None,
    }
}

pub open spec fn item_line(it: ModuleItem, name: Seq<char>) -> Option<u32> {
    match it {
        ModuleItem::Stmt(s) => stmt_line(s, name),
        ModuleItem::ModuleDecl(d) => module_decl_line(d, name),
    }
}

/// First item's match, in module order.
pub open spec fn find_in_module_spec(items: Seq<ModuleItem>, name: Seq<char>) -> Option<u32>
    decreases items.len(),
{
    if items.len() == 0 {
        None
    } else {
        match item_line(items[0], name) {
            Some(l) => Some(l),
            None => find_in_module_spec(items.subrange(1, items.len() as int), name),
        }
    }
}

impl TypeScriptParser {
    pub fn new() -> (r: Self)
        ensures
            r == TypeScriptParser,
    {
        TypeScriptParser
    }

    /// Whether a property name names the method.
    pub fn matches_method_name(&self, prop_name: &PropName, method_name: &str) -> (r: bool)
        ensures
            r == prop_matches(*prop_name, method_name@),
    {
        match prop_name {
            PropName::Ident(s) => str_eq(s.as_str(), method_name),
            PropName::Str(s) => str_eq(s.as_str(), method_name),
            PropName::Other => false,
        }
    }

    /// First member of the class that declares the method, and its
    /// line.
    pub fn find_method_in_class(&self, class: &Class, method_name: &str) -> (r: Option<u32>)
        ensures
            r == find_in_class_spec(*class, method_name@),
    {
        let n = class.body.len();
        proof {
            assert(class.body@.subrange(0, n as int) =~= class.body@);
        }
        let mut i: usize = 0;
        while i < n
            invariant
                n == class.body@.len(),
                i <= n,
                find_in_members(class.body@, method_name@)
                    == find_in_members(
                        class.body@.subrange(i as int, n as int),
                        method_name@,
                    ),
            decreases n - i,
        {
            let ghost rest = class.body@.subrange(i as int, n as int);
            let found: Option<u32> = match &class.body[i] {
                ClassMember::Method { key, line } => {
                    if self.matches_method_name(key, method_name) {
                        Some(*line)
                    } else {
                        None
                    }
                },
                ClassMember::PrivateMethod { name, line } => {
                    if str_eq(name.as_str(), method_name) {
                        Some(*line)
                    } else {
                        None
                    }
                },
                ClassMember::Other => None,
            };
            proof {
                assert(rest[0] == class.body@[i as int]);
                assert(rest.subrange(1, rest.len() as int)
                    =~= class.body@.subrange(i + 1, n as int));
            }
            if let Some(line) = found {
                proof {
                    assert(member_line(rest[0], method_name@) == Some(line));
                }
                return Some(line);
            }
            proof {
                assert(member_line(rest[0], method_name@) is None);
            }
            i = i + 1;
        }
        proof {
            assert(class.body@.subrange(n as int, n as int).len() == 0);
        }
        None
    }

    /// The line a statement contributes for the method.
    pub fn find_method_in_stmt(&self, stmt: &Stmt, method_name: &str) -> (r: Option<u32>)
        ensures
            r == stmt_line(*stmt, method_name@),
    {
        match stmt {
            Stmt::ClassDecl(class) => self.find_method_in_class(class, method_name),
            Stmt::Other => None,
        }
    }

    /// The line a module declaration contributes for the method.
    pub fn find_method_in_module_decl(
        &self,
        decl: &ModuleDecl,
        method_name: &str,
    ) -> (r: Option<u32>)
        ensures
            r == module_decl_line(*decl, method_name@),
    {
        match decl {
            ModuleDecl::ExportClass(class) => self.find_method_in_class(class, method_name),
            ModuleDecl::ExportDefaultClass(class) => self.find_method_in_class(class, method_name),
            ModuleDecl::Other => None,
        }
    }

    /// First declaration of the method in the module, in order.
    pub fn find_method_in_module(&self, module: &Module, method_name: &str) -> (r: Option<u32>)
        ensures
            r == find_in_module_spec(module.body@, method_name@),
    {
        let n = module.body.len();
        proof {
            assert(module.body@.subrange(0, n as int) =~= module.body@);
        }
        let mut i: usize = 0;
        while i < n
            invariant
                n == module.body@.len(),
                i <= n,
                find_in_module_spec(module.body@, method_name@)
                    == find_in_module_spec(
                        module.body@.subrange(i as int, n as int),
                        method_name@,
                    ),
            decreases n - i,
        {
            let ghost rest = module.body@.subrange(i as int, n as int);
            let found: Option<u32> = match &module.body[i] {
                ModuleItem::Stmt(stmt) => self.find_method_in_stmt(stmt, method_name),
                ModuleItem::ModuleDecl(decl) => {
                    self.find_method_in_module_decl(decl, method_name)
                },
            };
            proof {
                assert(rest[0] == module.body@[i as int]);
                assert(rest.subrange(1, rest.len() as int)
                    =~= module.body@.subrange(i + 1, n as int));
            }
            if let Some(line) = found {
                proof {
                    assert(item_line(rest[0], method_name@) == Some(line));
                }
                return Some(line);
            }
            proof {
                assert(item_line(rest[0], method_name@) is None);
            }
            i = i + 1;
        }
        proof {
            assert(module.body@.subrange(n as int, n as int).len() == 0);
        }
        None
    }
}

} // verus!
