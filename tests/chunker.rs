use claudevil::chunker::{chunk_file, chunk_file_with, detect_language, ChunkError, SymbolKind};

#[test]
fn detect_language_go() {
    assert_eq!(detect_language("main.go"), Some("go"));
    assert_eq!(detect_language("pkg/server/handler.go"), Some("go"));
}

#[test]
fn detect_language_unsupported() {
    assert_eq!(detect_language("main.rs"), None);
    assert_eq!(detect_language("index.js"), None);
    assert_eq!(detect_language("Makefile"), None);
    assert_eq!(detect_language("README.md"), None);
}

#[test]
fn detect_language_no_extension() {
    assert_eq!(detect_language("Dockerfile"), None);
}

#[test]
fn chunk_file_unknown_language_returns_empty() {
    // Rust has a chunker: the function is a chunk.
    let chunks = chunk_file("fn main() {}", "rust").unwrap();
    assert_eq!(chunks.len(), 1);
    assert_eq!(chunks[0].symbol_kind, SymbolKind::FunctionItem);
    assert_eq!(chunks[0].symbol_name.as_deref(), Some("main"));
    // A language without a grammar is an error.
    assert_eq!(
        chunk_file("main = putStrLn \"hi\"", "haskell").unwrap_err(),
        ChunkError::NoGrammar("haskell".to_string())
    );
}

#[test]
fn chunk_file_dispatches_to_go() {
    // A package clause is not among Go's chunk kinds.
    let chunks = chunk_file("package main\n", "go").unwrap();
    assert!(chunks.is_empty());
    let chunks = chunk_file("package main\nfunc F() {}\n", "go").unwrap();
    assert_eq!(chunks.len(), 1);
    assert_eq!(chunks[0].symbol_kind, SymbolKind::FunctionDeclaration);
}

#[test]
fn chunk_go_realistic_http_handler() {
    let source = r#"package api

import (
	"encoding/json"
	"net/http"
)

// UserService handles user-related operations.
type UserService struct {
	db    *sql.DB
	cache *redis.Client
}

// NewUserService creates a new UserService.
func NewUserService(db *sql.DB, cache *redis.Client) *UserService {
	return &UserService{
		db:    db,
		cache: cache,
	}
}

// GetUser returns a user by ID.
func (s *UserService) GetUser(w http.ResponseWriter, r *http.Request) {
	id := r.URL.Query().Get("id")
	if id == "" {
		http.Error(w, "missing id", http.StatusBadRequest)
		return
	}

	user, err := s.db.Query("SELECT * FROM users WHERE id = ?", id)
	if err != nil {
		http.Error(w, err.Error(), http.StatusInternalServerError)
		return
	}

	json.NewEncoder(w).Encode(user)
}

// DeleteUser removes a user by ID.
func (s *UserService) DeleteUser(w http.ResponseWriter, r *http.Request) {
	id := r.URL.Query().Get("id")
	_, err := s.db.Exec("DELETE FROM users WHERE id = ?", id)
	if err != nil {
		http.Error(w, err.Error(), http.StatusInternalServerError)
		return
	}
	w.WriteHeader(http.StatusNoContent)
}
"#;
    let chunks = chunk_file(source, "go").unwrap();

    // type, NewUserService, GetUser, DeleteUser
    assert_eq!(chunks.len(), 4);

    assert_eq!(chunks[0].symbol_kind, SymbolKind::TypeDeclaration);
    assert!(chunks[0].symbol_name.is_none());
    assert!(chunks[0].content.contains("UserService handles"));
    assert_eq!(chunks[0].start_line, 9);
    assert_eq!(chunks[0].end_line, 12);

    assert_eq!(chunks[1].symbol_name.as_deref(), Some("NewUserService"));
    assert_eq!(chunks[1].symbol_kind, SymbolKind::FunctionDeclaration);
    assert!(chunks[1].content.contains("NewUserService creates"));

    assert_eq!(chunks[2].symbol_name.as_deref(), Some("GetUser"));
    assert_eq!(chunks[2].symbol_kind, SymbolKind::MethodDeclaration);
    assert!(chunks[2].content.contains("GetUser returns a user"));

    assert_eq!(chunks[3].symbol_name.as_deref(), Some("DeleteUser"));
    assert_eq!(chunks[3].symbol_kind, SymbolKind::MethodDeclaration);
    assert!(chunks[3].content.contains("DeleteUser removes"));
}

#[test]
fn chunk_go_interface() {
    let source = r#"package storage

// Store is the main storage interface.
type Store interface {
	Get(key string) ([]byte, error)
	Set(key string, value []byte) error
	Delete(key string) error
}

type ReadOnlyStore interface {
	Get(key string) ([]byte, error)
}
"#;
    let chunks = chunk_file(source, "go").unwrap();
    assert_eq!(chunks.len(), 2);
    assert_eq!(chunks[0].symbol_kind, SymbolKind::TypeDeclaration);
    assert!(chunks[0].content.contains("Store is the main"));
    assert!(chunks[0].content.contains("Delete(key string) error"));
    assert!(chunks[1].content.starts_with("type ReadOnlyStore interface"));
    assert_eq!(chunks[1].symbol_kind, SymbolKind::TypeDeclaration);
}

#[test]
fn chunk_go_nested_braces() {
    let source = r#"package main

func Process(items []string) map[string]int {
	result := make(map[string]int)
	for _, item := range items {
		if len(item) > 0 {
			for _, ch := range item {
				result[string(ch)]++
			}
		}
	}
	return result
}
"#;
    let chunks = chunk_file(source, "go").unwrap();
    assert_eq!(chunks.len(), 1);
    let func_chunk = &chunks[0];
    assert_eq!(func_chunk.symbol_name.as_deref(), Some("Process"));
    // The whole function body is captured, not cut off at the first }
    assert!(func_chunk.content.contains("return result"));
    assert!(func_chunk.content.contains("result[string(ch)]++"));
}

#[test]
fn chunk_go_single_const() {
    let source = "package config\n\nconst MaxRetries = 3\n";
    let chunks = chunk_file(source, "go").unwrap();
    assert_eq!(chunks.len(), 1);
    assert_eq!(chunks[0].symbol_kind, SymbolKind::ConstDeclaration);
    assert!(chunks[0].symbol_name.is_none());
    assert_eq!(chunks[0].content, "const MaxRetries = 3");
}

#[test]
fn chunk_go_grouped_const_with_iota() {
    let source = r#"package status

const (
	StatusPending = iota
	StatusRunning
	StatusDone
	StatusFailed
)
"#;
    let chunks = chunk_file(source, "go").unwrap();
    assert_eq!(chunks.len(), 1);
    let const_chunk = &chunks[0];
    assert_eq!(const_chunk.symbol_kind, SymbolKind::ConstDeclaration);
    assert!(const_chunk.content.contains("StatusPending"));
    assert!(const_chunk.content.contains("StatusFailed"));
    assert_eq!(const_chunk.start_line, 3);
    assert_eq!(const_chunk.end_line, 8);
}

#[test]
fn chunk_go_var_declarations() {
    let source = r#"package globals

var DefaultTimeout = 30

var (
	ErrNotFound  = errors.New("not found")
	ErrForbidden = errors.New("forbidden")
)
"#;
    let chunks = chunk_file(source, "go").unwrap();
    assert_eq!(chunks.len(), 2);
    assert_eq!(chunks[0].symbol_kind, SymbolKind::VarDeclaration);
    assert!(chunks[0].content.contains("DefaultTimeout"));
    assert_eq!(chunks[1].symbol_kind, SymbolKind::VarDeclaration);
    assert!(chunks[1].content.contains("ErrNotFound"));
    assert!(chunks[1].content.contains("ErrForbidden"));
}

#[test]
fn chunk_go_type_alias() {
    let source = "package types\n\ntype UserID string\n\ntype Score float64\n";
    let chunks = chunk_file(source, "go").unwrap();
    assert_eq!(chunks.len(), 2);
    assert_eq!(chunks[0].content, "type UserID string");
    assert_eq!(chunks[0].symbol_kind, SymbolKind::TypeDeclaration);
    assert_eq!(chunks[1].content, "type Score float64");
    assert_eq!(chunks[1].symbol_kind, SymbolKind::TypeDeclaration);
}

#[test]
fn chunk_go_line_numbers_are_1_indexed() {
    let source = r#"package main

import "fmt"

func Hello() {
	fmt.Println("hello")
}
"#;
    let chunks = chunk_file(source, "go").unwrap();
    assert_eq!(chunks.len(), 1);
    // func on lines 5-7
    assert_eq!(chunks[0].start_line, 5);
    assert_eq!(chunks[0].end_line, 7);
}

#[test]
fn chunk_go_doc_comments_attached() {
    let source = r#"package pkg

// Config holds application configuration.
// It is loaded from environment variables.
type Config struct {
	Port int
	Host string
}

// NewConfig creates a Config from the environment.
func NewConfig() *Config {
	return &Config{Port: 8080, Host: "localhost"}
}
"#;
    let chunks = chunk_file(source, "go").unwrap();
    let type_chunk = &chunks[0];
    assert!(type_chunk.content.contains("Config holds application"));
    assert!(type_chunk.content.contains("loaded from environment"));
    assert!(type_chunk.content.contains("type Config struct"));
    let func_chunk = &chunks[1];
    assert!(func_chunk.content.starts_with("// NewConfig creates"));
    assert!(func_chunk.content.contains("\nfunc NewConfig"));
}

#[test]
fn chunk_go_empty_file() {
    let chunks = chunk_file("", "go").unwrap();
    assert!(chunks.is_empty());
}

#[test]
fn chunk_go_package_only() {
    let chunks = chunk_file("package main\n", "go").unwrap();
    assert!(chunks.is_empty());
}

#[test]
fn chunk_go_comments_only() {
    let source = "// This file is intentionally left blank.\n// Nothing here.\n";
    let chunks = chunk_file(source, "go").unwrap();
    assert!(chunks.is_empty());
}

#[test]
fn chunk_go_single_import() {
    let source = "package main\n\nimport \"fmt\"\n";
    let chunks = chunk_file(source, "go").unwrap();
    assert!(chunks.is_empty());
}

#[test]
fn chunk_go_value_receiver_method() {
    let source = r#"package point

type Point struct {
	X, Y float64
}

func (p Point) Distance() float64 {
	return math.Sqrt(p.X*p.X + p.Y*p.Y)
}
"#;
    let chunks = chunk_file(source, "go").unwrap();
    let method = &chunks[1];
    assert_eq!(method.symbol_name.as_deref(), Some("Distance"));
    assert_eq!(method.symbol_kind, SymbolKind::MethodDeclaration);
}

#[test]
fn chunk_go_package_name_propagated() {
    let source = r#"package mypackage

import "os"

func DoWork() error {
	return nil
}
"#;
    let chunks = chunk_file(source, "go").unwrap();
    // Only the function is a chunk; the package clause and import are not.
    assert_eq!(chunks.len(), 1);
    assert_eq!(chunks[0].symbol_name.as_deref(), Some("DoWork"));
}

#[test]
fn chunk_go_multiple_methods_same_type() {
    let source = r#"package db

type Conn struct {
	url string
}

func (c *Conn) Open() error {
	return nil
}

func (c *Conn) Close() error {
	return nil
}

func (c *Conn) Ping() error {
	return nil
}
"#;
    let chunks = chunk_file(source, "go").unwrap();
    let methods: Vec<_> = chunks
        .iter()
        .filter(|c| c.symbol_kind == SymbolKind::MethodDeclaration)
        .collect();
    assert_eq!(methods.len(), 3);
    assert_eq!(methods[0].symbol_name.as_deref(), Some("Open"));
    assert_eq!(methods[1].symbol_name.as_deref(), Some("Close"));
    assert_eq!(methods[2].symbol_name.as_deref(), Some("Ping"));
}

#[test]
fn chunk_go_generic_function() {
    let source = r#"package slices

func Map[T any, U any](s []T, f func(T) U) []U {
	result := make([]U, len(s))
	for i, v := range s {
		result[i] = f(v)
	}
	return result
}
"#;
    let chunks = chunk_file(source, "go").unwrap();
    assert_eq!(chunks.len(), 1);
    let func_chunk = &chunks[0];
    assert_eq!(func_chunk.symbol_name.as_deref(), Some("Map"));
    assert_eq!(func_chunk.symbol_kind, SymbolKind::FunctionDeclaration);
    assert!(func_chunk.content.contains("return result"));
}

#[test]
fn chunk_go_struct_with_tags() {
    let source = r#"package model

type User struct {
	ID        int64  `json:"id" db:"id"`
	Name      string `json:"name" db:"name"`
	Email     string `json:"email" db:"email"`
	CreatedAt time.Time `json:"created_at" db:"created_at"`
	sync.Mutex
}
"#;
    let chunks = chunk_file(source, "go").unwrap();
    let type_chunk = &chunks[0];
    assert_eq!(type_chunk.symbol_kind, SymbolKind::TypeDeclaration);
    assert!(type_chunk.content.contains("sync.Mutex"));
    assert!(type_chunk.content.contains("`json:\"id\""));
}

#[test]
fn chunk_go_function_with_closure() {
    let source = r#"package main

func RunServer() {
	http.HandleFunc("/", func(w http.ResponseWriter, r *http.Request) {
		if r.Method == "POST" {
			w.WriteHeader(200)
		} else {
			w.WriteHeader(405)
		}
	})
	http.ListenAndServe(":8080", nil)
}
"#;
    let chunks = chunk_file(source, "go").unwrap();
    assert_eq!(chunks.len(), 1);
    let func_chunk = &chunks[0];
    assert_eq!(func_chunk.symbol_name.as_deref(), Some("RunServer"));
    // Must capture the entire function including the closure
    assert!(func_chunk.content.contains("ListenAndServe"));
}

#[test]
fn go_function_with_doc_comment() {
    let chunks = chunk_file(
        "package api\n// Hello prints a greeting.\nfunc Hello() { fmt.Println(\"hi\") }\n",
        "go",
    )
    .unwrap();
    assert_eq!(chunks.len(), 1);
    assert_eq!(chunks[0].symbol_name.as_deref(), Some("Hello"));
    assert_eq!(chunks[0].symbol_kind.to_string(), "function_declaration");
    assert!(chunks[0].content.contains("Hello prints a greeting"));
    assert_eq!(
        chunks[0].content,
        "// Hello prints a greeting.\nfunc Hello() { fmt.Println(\"hi\") }"
    );
    assert_eq!(chunks[0].start_line, 3);
    assert_eq!(chunks[0].end_line, 3);
}

#[test]
fn rust_impl_name_and_nested_function() {
    let source = "struct Foo;\nimpl Display for Foo { fn fmt(&self, f: &mut Formatter<'_>) -> fmt::Result { write!(f, \"\") } }\n";
    let chunks = chunk_file(source, "rust").unwrap();
    assert_eq!(chunks.len(), 3);
    assert_eq!(chunks[0].symbol_kind, SymbolKind::StructItem);
    assert_eq!(chunks[0].symbol_name.as_deref(), Some("Foo"));
    assert_eq!(chunks[1].symbol_kind.to_string(), "impl_item");
    assert_eq!(chunks[1].symbol_name.as_deref(), Some("Display for Foo"));
    assert_eq!(chunks[2].symbol_kind.to_string(), "function_item");
    assert_eq!(chunks[2].symbol_name.as_deref(), Some("fmt"));
    assert_eq!(chunks[2].start_line, 2);
}

#[test]
fn rust_items_comments_and_signatures() {
    let source = "pub struct S { a: u8 }\n\n/// Doc.\npub fn run() -> u8 {\n    1\n}\ntrait T { fn sig(&self); }\nimpl<T: Clone> Holder<T> {\n    const N: usize = 2;\n}\n";
    let chunks = chunk_file(source, "rust").unwrap();
    let kinds: Vec<String> = chunks.iter().map(|c| c.symbol_kind.to_string()).collect();
    assert_eq!(kinds, vec!["struct_item", "function_item", "trait_item", "impl_item", "const_item"]);
    assert_eq!(chunks[1].content, "/// Doc.\npub fn run() -> u8 {\n    1\n}");
    assert_eq!(chunks[1].start_line, 4);
    assert_eq!(chunks[1].end_line, 6);
    assert_eq!(chunks[3].symbol_name.as_deref(), Some("Holder<T>"));
    assert_eq!(chunks[4].symbol_name.as_deref(), Some("N"));
}

#[test]
fn python_decorated_definition() {
    let source = "@app.route(\"/u\")\ndef list_users(): return []\n";
    let chunks = chunk_file(source, "python").unwrap();
    assert_eq!(chunks.len(), 2);
    assert_eq!(chunks[0].symbol_kind.to_string(), "decorated_definition");
    assert_eq!(chunks[0].symbol_name.as_deref(), Some("list_users"));
    assert_eq!(chunks[0].end_line, 2);
    assert_eq!(chunks[1].symbol_kind, SymbolKind::FunctionDefinition);
    assert_eq!(chunks[1].symbol_name.as_deref(), Some("list_users"));
}

#[test]
fn python_class_with_methods() {
    let source = "# A class.\nclass A:\n    def f(self):\n        return 1\n\n    def g(self): pass\nx = 1\n";
    let chunks = chunk_file(source, "python").unwrap();
    assert_eq!(chunks.len(), 3);
    assert_eq!(chunks[0].symbol_kind, SymbolKind::ClassDefinition);
    assert_eq!(chunks[0].symbol_name.as_deref(), Some("A"));
    assert!(chunks[0].content.starts_with("# A class.\nclass A:"));
    assert_eq!((chunks[0].start_line, chunks[0].end_line), (2, 6));
    assert_eq!(chunks[1].symbol_name.as_deref(), Some("f"));
    assert_eq!((chunks[1].start_line, chunks[1].end_line), (3, 4));
    assert_eq!(chunks[2].symbol_name.as_deref(), Some("g"));
    assert_eq!((chunks[2].start_line, chunks[2].end_line), (6, 6));
}

#[test]
fn chunk_lines_stay_in_range() {
    let source = "package p\n\nfunc Open() {\n\tif x {\n";
    let chunks = chunk_file(source, "go").unwrap();
    let lines = source.lines().count();
    assert_eq!(chunks.len(), 1);
    for c in &chunks {
        assert!(1 <= c.start_line && c.start_line <= c.end_line && c.end_line <= lines);
    }
    assert_eq!(chunks[0].end_line, 4);
}

#[test]
fn crlf_lines_and_kinds() {
    let source = "package k\r\nconst (\r\n\tA = 1\r\n)\r\nvar X = 2\r\ntype R interface {\r\n}\r\n";
    let chunks = chunk_file(source, "go").unwrap();
    assert_eq!(chunks.len(), 3);
    assert_eq!(chunks[0].symbol_kind, SymbolKind::ConstDeclaration);
    assert_eq!(chunks[0].content, "const (\r\n\tA = 1\r\n)");
    assert_eq!(chunks[1].content, "var X = 2");
    assert_eq!(chunks[2].symbol_kind, SymbolKind::TypeDeclaration);
    assert_eq!(SymbolKind::VarDeclaration.to_string(), "var_declaration");
}

#[test]
fn method_without_closing_paren_has_no_name() {
    let chunks = chunk_file("func (broken\n", "go").unwrap();
    assert_eq!(chunks.len(), 1);
    assert!(chunks[0].symbol_name.is_none());
    assert_eq!(chunks[0].symbol_kind, SymbolKind::MethodDeclaration);
}

#[test]
fn no_grammar_message() {
    let e = chunk_file("", "cobol").unwrap_err();
    assert_eq!(e.to_string(), "no grammar loaded for cobol");
}

#[test]
fn chunk_on_selects_kinds() {
    let source = "type T int\nfunc F() {}\nfunc (t T) M() {}\n";
    let only_funcs = vec!["function_declaration".to_string()];
    let chunks = chunk_file_with(source, "tree-sitter-go", &only_funcs).unwrap();
    assert_eq!(chunks.len(), 1);
    assert_eq!(chunks[0].symbol_name.as_deref(), Some("F"));
    let defaults = claudevil::config::default_chunk_on("go");
    assert_eq!(chunk_file_with(source, "tree-sitter-go", &defaults).unwrap().len(), 3);
    assert_eq!(
        chunk_file_with(source, "tree-sitter-zig", &defaults).unwrap_err(),
        ChunkError::NoGrammar("tree-sitter-zig".to_string())
    );
}

#[test]
fn grammar_decides_the_chunker() {
    let python_kinds = claudevil::config::default_chunk_on("python");
    // Any language name, parsed with the Python grammar.
    let chunks = chunk_file_with("def f():\n    pass\n", "tree-sitter-python", &python_kinds).unwrap();
    assert_eq!(chunks.len(), 1);
    assert_eq!(chunks[0].symbol_kind, SymbolKind::FunctionDefinition);
    // Go source read with the Python grammar has no Python definitions.
    let chunks = chunk_file_with("func F() {}\n", "tree-sitter-python", &python_kinds).unwrap();
    assert!(chunks.is_empty());
}

#[test]
fn keywords_in_strings_and_comments_are_not_declarations() {
    let go = "func Main() {\n\ts := \"a; func f() {}\"\n\t// x; type T int\n\t/* var y = 1 */\n\tr := `; const C = 1`\n}\n";
    let chunks = chunk_file(go, "go").unwrap();
    assert_eq!(chunks.len(), 1);
    assert_eq!(chunks[0].symbol_name.as_deref(), Some("Main"));

    let rust = "fn a() { let s = \"{ fn b() {} }\"; }\n/* fn c() {} */\nfn d() {}\n";
    let names: Vec<_> = chunk_file(rust, "rust")
        .unwrap()
        .iter()
        .map(|c| c.symbol_name.clone().unwrap())
        .collect();
    assert_eq!(names, vec!["a", "d"]);

    let py = "def f():\n    \"\"\"\n    def not_a_function():\n    \"\"\"\n    return 1\n# def g(): pass\n";
    let chunks = chunk_file(py, "python").unwrap();
    assert_eq!(chunks.len(), 1);
    assert_eq!(chunks[0].symbol_name.as_deref(), Some("f"));
    assert_eq!(chunks[0].end_line, 5);
}

#[test]
fn brackets_in_strings_do_not_end_declarations() {
    let rust = "fn open() { write!(f, \"{\"); }\nfn next() {}\n";
    let chunks = chunk_file(rust, "rust").unwrap();
    assert_eq!(chunks.len(), 2);
    assert_eq!(chunks[0].content, "fn open() { write!(f, \"{\"); }");
    assert_eq!(chunks[0].end_line, 1);

    let go = "func A() {\n\ts := \"}\" // }\n\treturn\n}\nfunc B() {}\n";
    let chunks = chunk_file(go, "go").unwrap();
    assert_eq!(chunks.len(), 2);
    assert_eq!((chunks[0].start_line, chunks[0].end_line), (1, 4));
    assert_eq!(chunks[1].symbol_name.as_deref(), Some("B"));
}
