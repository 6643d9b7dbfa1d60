use profiler_core::file_locator::FileLocator;
use profiler_core::parser::{
    Class, ClassMember, Module, ModuleDecl, ModuleItem, PropName, Stmt, TypeScriptParser,
};
use profiler_core::{file_location_of, method_location_of};

#[test]
fn test_contains_class() {
    let locator = FileLocator::new(".".to_string());

    let content = "export class MyComponent { }";
    assert!(locator.contains_class(content, "MyComponent"));

    let content = "class MyService implements IService { }";
    assert!(locator.contains_class(content, "MyService"));

    let content = "export default class MyClass { }";
    assert!(locator.contains_class(content, "MyClass"));

    let content = "const MyClass = () => { }";
    assert!(!locator.contains_class(content, "MyClass"));
}

#[test]
fn test_is_typescript_file() {
    let locator = FileLocator::new(".".to_string());
    assert!(locator.is_typescript_file("src/app/component.ts"));
    assert!(locator.is_typescript_file("component.tsx"));
    assert!(!locator.is_typescript_file("src/app/component.js"));
    assert!(!locator.is_typescript_file("Makefile"));
    assert!(!locator.is_typescript_file(".ts"));
    assert!(!locator.is_typescript_file("dir.ts/readme"));
}

#[test]
fn test_should_include_entry() {
    let locator = FileLocator::new(".".to_string());
    let path = |parts: &[&str]| parts.iter().map(|p| p.to_string()).collect::<Vec<_>>();

    assert!(locator.should_include_entry(&path(&["src", "app", "main.ts"])));
    assert!(!locator.should_include_entry(&path(&["node_modules", "left-pad", "index.js"])));
    assert!(!locator.should_include_entry(&path(&["src", "dist", "main.js"])));
    assert!(!locator.should_include_entry(&path(&["src", ".hidden.ts"])));
    assert!(locator.should_include_entry(&path(&["."])));
    assert!(locator.should_include_entry(&path(&[])));
}

fn sample_module() -> Module {
    Module {
        body: vec![
            ModuleItem::ModuleDecl(ModuleDecl::ExportClass(Class {
                body: vec![
                    ClassMember::Other,
                    ClassMember::Method { key: PropName::Ident("ngOnInit".to_string()), line: 5 },
                    ClassMember::Method { key: PropName::Ident("myMethod".to_string()), line: 9 },
                ],
            })),
        ],
    }
}

#[test]
fn test_find_method_in_module() {
    let parser = TypeScriptParser::new();
    let module = sample_module();

    assert_eq!(parser.find_method_in_module(&module, "myMethod"), Some(9));
    assert_eq!(parser.find_method_in_module(&module, "ngOnInit"), Some(5));
    assert_eq!(parser.find_method_in_module(&module, "missing"), None);
}

#[test]
fn test_find_method_variants() {
    let parser = TypeScriptParser::new();

    let class = Class {
        body: vec![
            ClassMember::Method { key: PropName::Str("quoted name".to_string()), line: 3 },
            ClassMember::PrivateMethod { name: "secret".to_string(), line: 7 },
            ClassMember::Method { key: PropName::Other, line: 11 },
        ],
    };
    assert_eq!(parser.find_method_in_class(&class, "quoted name"), Some(3));
    assert_eq!(parser.find_method_in_class(&class, "secret"), Some(7));
    assert_eq!(parser.find_method_in_class(&class, "anything"), None);

    let stmt = Stmt::ClassDecl(Class {
        body: vec![ClassMember::Method {
            key: PropName::Ident("go".to_string()),
            line: 2,
        }],
    });
    assert_eq!(parser.find_method_in_stmt(&stmt, "go"), Some(2));
    assert_eq!(parser.find_method_in_stmt(&Stmt::Other, "go"), None);

    let default_decl = ModuleDecl::ExportDefaultClass(Class {
        body: vec![ClassMember::Method {
            key: PropName::Ident("run".to_string()),
            line: 4,
        }],
    });
    assert_eq!(parser.find_method_in_module_decl(&default_decl, "run"), Some(4));
    assert_eq!(parser.find_method_in_module_decl(&ModuleDecl::Other, "run"), None);

    assert!(parser.matches_method_name(&PropName::Ident("a".to_string()), "a"));
    assert!(!parser.matches_method_name(&PropName::Other, "a"));
}

#[test]
fn test_location_results() {
    let found = file_location_of(Some("src/app.ts".to_string()));
    assert!(found.found);
    assert_eq!(found.file_path, "src/app.ts");

    let missing = file_location_of(None);
    assert!(!missing.found);
    assert_eq!(missing.file_path, "");

    let line = method_location_of(Some(42));
    assert!(line.found);
    assert_eq!(line.line, 42);

    let no_line = method_location_of(None);
    assert!(!no_line.found);
    assert_eq!(no_line.line, 0);
}
