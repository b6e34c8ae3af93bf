//! The registered languages and what their syntax nodes mean for chunking.

use crate::{paths, text};
use vstd::prelude::*;

verus! {

/// A supported language, in registration order.
#[derive(Debug, Clone, Copy, PartialEq, Eq, Structural)]
pub enum Language {
    Rust,
    TypeScript,
    Tsx,
    JavaScript,
    Jsx,
    Python,
    CSharp,
    Go,
    Java,
}

/// A parser grammar. JSX shares the JavaScript grammar.
#[derive(Debug, Clone, Copy, PartialEq, Eq, Structural)]
pub enum Grammar {
    Rust,
    TypeScript,
    Tsx,
    JavaScript,
    Python,
    CSharp,
    Go,
    Java,
}

/// A family of syntax node kinds.
#[derive(Debug, Clone, Copy, PartialEq, Eq, Structural)]
pub enum Syntax {
    Rust,
    EcmaScript,
    Python,
    CSharp,
    Go,
    Java,
}

impl Language {
    /// The file extension of the language, without its dot.
    pub open spec fn extension(self) -> Seq<char> {
        match self {
            Language::Rust => "rs"@,
            Language::TypeScript => "ts"@,
            Language::Tsx => "tsx"@,
            Language::JavaScript => "js"@,
            Language::Jsx => "jsx"@,
            Language::Python => "py"@,
            Language::CSharp => "cs"@,
            Language::Go => "go"@,
            Language::Java => "java"@,
        }
    }

    /// The identifier of the language.
    pub open spec fn identifier(self) -> Seq<char> {
        match self {
            Language::Rust => "rust"@,
            Language::TypeScript => "typescript"@,
            Language::Tsx => "tsx"@,
            Language::JavaScript => "javascript"@,
            Language::Jsx => "jsx"@,
            Language::Python => "python"@,
            Language::CSharp => "csharp"@,
            Language::Go => "go"@,
            Language::Java => "java"@,
        }
    }

    /// The version of the chunks made for the language.
    pub open spec fn cache_version(self) -> Seq<char> {
        match self {
            Language::Rust => "rust-chunks-v1"@,
            Language::TypeScript => "typescript-chunks-v1"@,
            Language::Tsx => "tsx-chunks-v1"@,
            Language::JavaScript => "javascript-chunks-v1"@,
            Language::Jsx => "jsx-chunks-v1"@,
            Language::Python => "python-chunks-v1"@,
            Language::CSharp => "csharp-chunks-v1"@,
            Language::Go => "go-chunks-v1"@,
            Language::Java => "java-chunks-v1"@,
        }
    }

    /// The glob pattern of the files of the language.
    pub open spec fn glob(self) -> Seq<char> {
        match self {
            Language::Rust => "*.rs"@,
            Language::TypeScript => "*.ts"@,
            Language::Tsx => "*.tsx"@,
            Language::JavaScript => "*.js"@,
            Language::Jsx => "*.jsx"@,
            Language::Python => "*.py"@,
            Language::CSharp => "*.cs"@,
            Language::Go => "*.go"@,
            Language::Java => "*.java"@,
        }
    }

    /// The grammar that parses the language.
    pub open spec fn grammar(self) -> Grammar {
        match self {
            Language::Rust => Grammar::Rust,
            Language::TypeScript => Grammar::TypeScript,
            Language::Tsx => Grammar::Tsx,
            Language::JavaScript => Grammar::JavaScript,
            Language::Jsx => Grammar::JavaScript,
            Language::Python => Grammar::Python,
            Language::CSharp => Grammar::CSharp,
            Language::Go => Grammar::Go,
            Language::Java => Grammar::Java,
        }
    }

    /// The family of node kinds of the language.
    pub open spec fn syntax(self) -> Syntax {
        match self {
            Language::Rust => Syntax::Rust,
            Language::TypeScript => Syntax::EcmaScript,
            Language::Tsx => Syntax::EcmaScript,
            Language::JavaScript => Syntax::EcmaScript,
            Language::Jsx => Syntax::EcmaScript,
            Language::Python => Syntax::Python,
            Language::CSharp => Syntax::CSharp,
            Language::Go => Syntax::Go,
            Language::Java => Syntax::Java,
        }
    }
}

/// The registered languages, in order.
pub open spec fn registered() -> Seq<Language> {
    seq![
        Language::Rust,
        Language::TypeScript,
        Language::Tsx,
        Language::JavaScript,
        Language::Jsx,
        Language::Python,
        Language::CSharp,
        Language::Go,
        Language::Java,
    ]
}

/// The language of a file extension. Extensions are compared as they stand.
pub open spec fn language_for(extension: Seq<char>) -> Option<Language> {
    if extension == Language::Rust.extension() {
        Some(Language::Rust)
    } else if extension == Language::TypeScript.extension() {
        Some(Language::TypeScript)
    } else if extension == Language::Tsx.extension() {
        Some(Language::Tsx)
    } else if extension == Language::JavaScript.extension() {
        Some(Language::JavaScript)
    } else if extension == Language::Jsx.extension() {
        Some(Language::Jsx)
    } else if extension == Language::Python.extension() {
        Some(Language::Python)
    } else if extension == Language::CSharp.extension() {
        Some(Language::CSharp)
    } else if extension == Language::Go.extension() {
        Some(Language::Go)
    } else if extension == Language::Java.extension() {
        Some(Language::Java)
    } else {
        None
    }
}

/// The language of a path, by its extension.
pub open spec fn language_of_path(path: Seq<char>) -> Option<Language> {
    match paths::extension(path) {
        Some(extension) => language_for(extension),
        None => None,
    }
}

pub open spec fn container_kind(syntax: Syntax, kind: Seq<char>) -> bool {
    match syntax {
        Syntax::Rust => kind == "source_file"@
            || kind == "declaration_list"@
            || kind == "impl_item"@
            || kind == "mod_item"@
            || kind == "trait_item"@,
        Syntax::EcmaScript => kind == "program"@
            || kind == "class_body"@
            || kind == "interface_body"@
            || kind == "object_type"@
            || kind == "statement_block"@,
        Syntax::Python => kind == "module"@
            || kind == "block"@,
        Syntax::CSharp => kind == "compilation_unit"@
            || kind == "namespace_declaration"@
            || kind == "file_scoped_namespace_declaration"@
            || kind == "declaration_list"@
            || kind == "class_body"@
            || kind == "enum_body"@
            || kind == "block"@,
        Syntax::Go => kind == "source_file"@,
        Syntax::Java => kind == "program"@
            || kind == "class_body"@
            || kind == "interface_body"@
            || kind == "enum_body"@
            || kind == "enum_body_declarations"@
            || kind == "annotation_type_body"@
            || kind == "constructor_body"@
            || kind == "block"@,
    }
}

pub open spec fn boundary_kind(syntax: Syntax, kind: Seq<char>) -> bool {
    match syntax {
        Syntax::Rust => false,
        Syntax::EcmaScript => kind == "export_statement"@
            || kind == "class_declaration"@
            || kind == "abstract_class_declaration"@
            || kind == "interface_declaration"@,
        Syntax::Python => false,
        Syntax::CSharp => kind == "class_declaration"@
            || kind == "struct_declaration"@
            || kind == "interface_declaration"@
            || kind == "record_declaration"@
            || kind == "enum_declaration"@
            || kind == "delegate_declaration"@
            || kind == "namespace_declaration"@
            || kind == "file_scoped_namespace_declaration"@,
        Syntax::Go => false,
        Syntax::Java => kind == "class_declaration"@
            || kind == "interface_declaration"@
            || kind == "enum_declaration"@
            || kind == "record_declaration"@
            || kind == "annotation_type_declaration"@,
    }
}

pub open spec fn declaration_kind(syntax: Syntax, kind: Seq<char>) -> bool {
    match syntax {
        Syntax::Rust => kind == "function_item"@
            || kind == "struct_item"@
            || kind == "enum_item"@
            || kind == "macro_definition"@,
        Syntax::EcmaScript => kind == "function_declaration"@
            || kind == "generator_function_declaration"@
            || kind == "function_signature"@
            || kind == "class_declaration"@
            || kind == "abstract_class_declaration"@
            || kind == "method_definition"@
            || kind == "method_signature"@
            || kind == "abstract_method_signature"@
            || kind == "interface_declaration"@
            || kind == "type_alias_declaration"@
            || kind == "enum_declaration"@
            || kind == "ambient_declaration"@
            || kind == "lexical_declaration"@
            || kind == "variable_declaration"@
            || kind == "variable_declarator"@
            || kind == "arrow_function"@
            || kind == "export_statement"@,
        Syntax::Python => kind == "function_definition"@
            || kind == "class_definition"@
            || kind == "decorated_definition"@,
        Syntax::CSharp => kind == "namespace_declaration"@
            || kind == "file_scoped_namespace_declaration"@
            || kind == "class_declaration"@
            || kind == "struct_declaration"@
            || kind == "interface_declaration"@
            || kind == "record_declaration"@
            || kind == "enum_declaration"@
            || kind == "delegate_declaration"@
            || kind == "method_declaration"@
            || kind == "constructor_declaration"@
            || kind == "destructor_declaration"@
            || kind == "operator_declaration"@
            || kind == "property_declaration"@
            || kind == "indexer_declaration"@
            || kind == "event_field_declaration"@
            || kind == "event_declaration"@
            || kind == "field_declaration"@
            || kind == "base_field_declaration"@
            || kind == "local_function_statement"@,
        Syntax::Go => kind == "function_declaration"@
            || kind == "method_declaration"@
            || kind == "type_declaration"@
            || kind == "const_declaration"@
            || kind == "var_declaration"@,
        Syntax::Java => kind == "package_declaration"@
            || kind == "import_declaration"@
            || kind == "class_declaration"@
            || kind == "interface_declaration"@
            || kind == "enum_declaration"@
            || kind == "record_declaration"@
            || kind == "annotation_type_declaration"@
            || kind == "method_declaration"@
            || kind == "constructor_declaration"@
            || kind == "compact_constructor_declaration"@
            || kind == "field_declaration"@
            || kind == "constant_declaration"@
            || kind == "annotation_type_element_declaration"@,
    }
}

pub open spec fn prefix_kind(syntax: Syntax, kind: Seq<char>) -> bool {
    match syntax {
        Syntax::Rust => kind == "line_comment"@
            || kind == "block_comment"@
            || kind == "attribute_item"@
            || kind == "inner_attribute_item"@,
        Syntax::EcmaScript => kind == "comment"@
            || kind == "decorator"@,
        Syntax::Python => kind == "comment"@
            || kind == "decorator"@,
        Syntax::CSharp => kind == "comment"@
            || kind == "attribute_list"@,
        Syntax::Go => kind == "comment"@,
        Syntax::Java => kind == "line_comment"@
            || kind == "block_comment"@,
    }
}

/// Whether the text in front of a child is kept with the child's first part.
pub open spec fn attaches(syntax: Syntax, parent: Seq<char>, child: Seq<char>) -> bool {
    match syntax {
        Syntax::EcmaScript => {
            ||| parent == "export_statement"@
            ||| parent == "lexical_declaration"@
            ||| parent == "variable_declaration"@
            ||| parent == "variable_declarator"@
            ||| parent == "arrow_function"@
            ||| declaration_kind(syntax, parent) && container_kind(syntax, child)
        },
        Syntax::Python => {
            ||| parent == "decorated_definition"@ && declaration_kind(syntax, child)
            ||| declaration_kind(syntax, parent) && container_kind(syntax, child)
        },
        Syntax::CSharp | Syntax::Java => declaration_kind(syntax, parent) && container_kind(
            syntax,
            child,
        ),
        Syntax::Rust | Syntax::Go => false,
    }
}

/// Everything that chunking and search know about one language.
#[derive(Debug, Clone, Copy, PartialEq, Eq, Structural)]
pub struct LanguageAdapter {
    pub language: Language,
}

impl LanguageAdapter {
    /// The file extension of the language, without its dot.
    pub fn extension(&self) -> (r: &'static str)
        ensures
            r@ == self.language.extension(),
    {
        match self.language {
            Language::Rust => "rs",
            Language::TypeScript => "ts",
            Language::Tsx => "tsx",
            Language::JavaScript => "js",
            Language::Jsx => "jsx",
            Language::Python => "py",
            Language::CSharp => "cs",
            Language::Go => "go",
            Language::Java => "java",
        }
    }

    /// The identifier of the language.
    pub fn identifier(&self) -> (r: &'static str)
        ensures
            r@ == self.language.identifier(),
    {
        match self.language {
            Language::Rust => "rust",
            Language::TypeScript => "typescript",
            Language::Tsx => "tsx",
            Language::JavaScript => "javascript",
            Language::Jsx => "jsx",
            Language::Python => "python",
            Language::CSharp => "csharp",
            Language::Go => "go",
            Language::Java => "java",
        }
    }

    /// The version of the chunks made for the language.
    pub fn cache_version(&self) -> (r: &'static str)
        ensures
            r@ == self.language.cache_version(),
    {
        match self.language {
            Language::Rust => "rust-chunks-v1",
            Language::TypeScript => "typescript-chunks-v1",
            Language::Tsx => "tsx-chunks-v1",
            Language::JavaScript => "javascript-chunks-v1",
            Language::Jsx => "jsx-chunks-v1",
            Language::Python => "python-chunks-v1",
            Language::CSharp => "csharp-chunks-v1",
            Language::Go => "go-chunks-v1",
            Language::Java => "java-chunks-v1",
        }
    }

    /// The grammar that parses the language.
    pub fn grammar(&self) -> (r: Grammar)
        ensures
            r == self.language.grammar(),
    {
        match self.language {
            Language::Rust => Grammar::Rust,
            Language::TypeScript => Grammar::TypeScript,
            Language::Tsx => Grammar::Tsx,
            Language::JavaScript => Grammar::JavaScript,
            Language::Jsx => Grammar::JavaScript,
            Language::Python => Grammar::Python,
            Language::CSharp => Grammar::CSharp,
            Language::Go => Grammar::Go,
            Language::Java => Grammar::Java,
        }
    }

    /// The glob pattern of the files of the language.
    pub fn glob(&self) -> (r: &'static str)
        ensures
            r@ == self.language.glob(),
    {
        match self.language {
            Language::Rust => "*.rs",
            Language::TypeScript => "*.ts",
            Language::Tsx => "*.tsx",
            Language::JavaScript => "*.js",
            Language::Jsx => "*.jsx",
            Language::Python => "*.py",
            Language::CSharp => "*.cs",
            Language::Go => "*.go",
            Language::Java => "*.java",
        }
    }

    /// The family of node kinds of the language.
    pub fn syntax(&self) -> (r: Syntax)
        ensures
            r == self.language.syntax(),
    {
        match self.language {
            Language::Rust => Syntax::Rust,
            Language::TypeScript => Syntax::EcmaScript,
            Language::Tsx => Syntax::EcmaScript,
            Language::JavaScript => Syntax::EcmaScript,
            Language::Jsx => Syntax::EcmaScript,
            Language::Python => Syntax::Python,
            Language::CSharp => Syntax::CSharp,
            Language::Go => Syntax::Go,
            Language::Java => Syntax::Java,
        }
    }
}

impl Syntax {
    /// Report whether nodes of this kind only hold declarations or statements,
    /// each of which is chunked on its own.
    pub fn is_container(self, kind: &str) -> (r: bool)
        ensures
            r == container_kind(self, kind@),
    {
        match self {
            Syntax::Rust => text::str_eq(kind, "source_file")
                || text::str_eq(kind, "declaration_list")
                || text::str_eq(kind, "impl_item")
                || text::str_eq(kind, "mod_item")
                || text::str_eq(kind, "trait_item"),
            Syntax::EcmaScript => text::str_eq(kind, "program")
                || text::str_eq(kind, "class_body")
                || text::str_eq(kind, "interface_body")
                || text::str_eq(kind, "object_type")
                || text::str_eq(kind, "statement_block"),
            Syntax::Python => text::str_eq(kind, "module")
                || text::str_eq(kind, "block"),
            Syntax::CSharp => text::str_eq(kind, "compilation_unit")
                || text::str_eq(kind, "namespace_declaration")
                || text::str_eq(kind, "file_scoped_namespace_declaration")
                || text::str_eq(kind, "declaration_list")
                || text::str_eq(kind, "class_body")
                || text::str_eq(kind, "enum_body")
                || text::str_eq(kind, "block"),
            Syntax::Go => text::str_eq(kind, "source_file"),
            Syntax::Java => text::str_eq(kind, "program")
                || text::str_eq(kind, "class_body")
                || text::str_eq(kind, "interface_body")
                || text::str_eq(kind, "enum_body")
                || text::str_eq(kind, "enum_body_declarations")
                || text::str_eq(kind, "annotation_type_body")
                || text::str_eq(kind, "constructor_body")
                || text::str_eq(kind, "block"),
        }
    }

    /// Report whether nodes of this kind are always opened, whatever their size.
    pub fn is_boundary(self, kind: &str) -> (r: bool)
        ensures
            r == boundary_kind(self, kind@),
    {
        match self {
            Syntax::Rust => false,
            Syntax::EcmaScript => text::str_eq(kind, "export_statement")
                || text::str_eq(kind, "class_declaration")
                || text::str_eq(kind, "abstract_class_declaration")
                || text::str_eq(kind, "interface_declaration"),
            Syntax::Python => false,
            Syntax::CSharp => text::str_eq(kind, "class_declaration")
                || text::str_eq(kind, "struct_declaration")
                || text::str_eq(kind, "interface_declaration")
                || text::str_eq(kind, "record_declaration")
                || text::str_eq(kind, "enum_declaration")
                || text::str_eq(kind, "delegate_declaration")
                || text::str_eq(kind, "namespace_declaration")
                || text::str_eq(kind, "file_scoped_namespace_declaration"),
            Syntax::Go => false,
            Syntax::Java => text::str_eq(kind, "class_declaration")
                || text::str_eq(kind, "interface_declaration")
                || text::str_eq(kind, "enum_declaration")
                || text::str_eq(kind, "record_declaration")
                || text::str_eq(kind, "annotation_type_declaration"),
        }
    }

    /// Report whether nodes of this kind are declarations, which stay whole up to a
    /// larger size than other syntax.
    pub fn is_declaration(self, kind: &str) -> (r: bool)
        ensures
            r == declaration_kind(self, kind@),
    {
        match self {
            Syntax::Rust => text::str_eq(kind, "function_item")
                || text::str_eq(kind, "struct_item")
                || text::str_eq(kind, "enum_item")
                || text::str_eq(kind, "macro_definition"),
            Syntax::EcmaScript => text::str_eq(kind, "function_declaration")
                || text::str_eq(kind, "generator_function_declaration")
                || text::str_eq(kind, "function_signature")
                || text::str_eq(kind, "class_declaration")
                || text::str_eq(kind, "abstract_class_declaration")
                || text::str_eq(kind, "method_definition")
                || text::str_eq(kind, "method_signature")
                || text::str_eq(kind, "abstract_method_signature")
                || text::str_eq(kind, "interface_declaration")
                || text::str_eq(kind, "type_alias_declaration")
                || text::str_eq(kind, "enum_declaration")
                || text::str_eq(kind, "ambient_declaration")
                || text::str_eq(kind, "lexical_declaration")
                || text::str_eq(kind, "variable_declaration")
                || text::str_eq(kind, "variable_declarator")
                || text::str_eq(kind, "arrow_function")
                || text::str_eq(kind, "export_statement"),
            Syntax::Python => text::str_eq(kind, "function_definition")
                || text::str_eq(kind, "class_definition")
                || text::str_eq(kind, "decorated_definition"),
            Syntax::CSharp => text::str_eq(kind, "namespace_declaration")
                || text::str_eq(kind, "file_scoped_namespace_declaration")
                || text::str_eq(kind, "class_declaration")
                || text::str_eq(kind, "struct_declaration")
                || text::str_eq(kind, "interface_declaration")
                || text::str_eq(kind, "record_declaration")
                || text::str_eq(kind, "enum_declaration")
                || text::str_eq(kind, "delegate_declaration")
                || text::str_eq(kind, "method_declaration")
                || text::str_eq(kind, "constructor_declaration")
                || text::str_eq(kind, "destructor_declaration")
                || text::str_eq(kind, "operator_declaration")
                || text::str_eq(kind, "property_declaration")
                || text::str_eq(kind, "indexer_declaration")
                || text::str_eq(kind, "event_field_declaration")
                || text::str_eq(kind, "event_declaration")
                || text::str_eq(kind, "field_declaration")
                || text::str_eq(kind, "base_field_declaration")
                || text::str_eq(kind, "local_function_statement"),
            Syntax::Go => text::str_eq(kind, "function_declaration")
                || text::str_eq(kind, "method_declaration")
                || text::str_eq(kind, "type_declaration")
                || text::str_eq(kind, "const_declaration")
                || text::str_eq(kind, "var_declaration"),
            Syntax::Java => text::str_eq(kind, "package_declaration")
                || text::str_eq(kind, "import_declaration")
                || text::str_eq(kind, "class_declaration")
                || text::str_eq(kind, "interface_declaration")
                || text::str_eq(kind, "enum_declaration")
                || text::str_eq(kind, "record_declaration")
                || text::str_eq(kind, "annotation_type_declaration")
                || text::str_eq(kind, "method_declaration")
                || text::str_eq(kind, "constructor_declaration")
                || text::str_eq(kind, "compact_constructor_declaration")
                || text::str_eq(kind, "field_declaration")
                || text::str_eq(kind, "constant_declaration")
                || text::str_eq(kind, "annotation_type_element_declaration"),
        }
    }

    /// Report whether nodes of this kind belong to the node that follows them.
    pub fn is_prefix(self, kind: &str) -> (r: bool)
        ensures
            r == prefix_kind(self, kind@),
    {
        match self {
            Syntax::Rust => text::str_eq(kind, "line_comment")
                || text::str_eq(kind, "block_comment")
                || text::str_eq(kind, "attribute_item")
                || text::str_eq(kind, "inner_attribute_item"),
            Syntax::EcmaScript => text::str_eq(kind, "comment")
                || text::str_eq(kind, "decorator"),
            Syntax::Python => text::str_eq(kind, "comment")
                || text::str_eq(kind, "decorator"),
            Syntax::CSharp => text::str_eq(kind, "comment")
                || text::str_eq(kind, "attribute_list"),
            Syntax::Go => text::str_eq(kind, "comment"),
            Syntax::Java => text::str_eq(kind, "line_comment")
                || text::str_eq(kind, "block_comment"),
        }
    }

    /// Report whether the text in front of a child is kept with the child's first
    /// part.
    pub fn attaches_header_to_child(self, parent: &str, child: &str) -> (r: bool)
        ensures
            r == attaches(self, parent@, child@),
    {
        match self {
            Syntax::EcmaScript => text::str_eq(parent, "export_statement")
                || text::str_eq(parent, "lexical_declaration")
                || text::str_eq(parent, "variable_declaration")
                || text::str_eq(parent, "variable_declarator")
                || text::str_eq(parent, "arrow_function")
                || (self.is_declaration(parent) && self.is_container(child)),
            Syntax::Python => (text::str_eq(parent, "decorated_definition")
                && self.is_declaration(child))
                || (self.is_declaration(parent) && self.is_container(child)),
            Syntax::CSharp | Syntax::Java => self.is_declaration(parent) && self.is_container(child),
            Syntax::Rust | Syntax::Go => false,
        }
    }
}

/// The adapters of the registered languages, in order.
pub fn adapters() -> (r: [LanguageAdapter; 9])
    ensures
        r@.len() == registered().len(),
        forall|i: int| 0 <= i < r@.len() ==> (#[trigger] r@[i]).language == registered()[i],
{
    [
        LanguageAdapter { language: Language::Rust },
        LanguageAdapter { language: Language::TypeScript },
        LanguageAdapter { language: Language::Tsx },
        LanguageAdapter { language: Language::JavaScript },
        LanguageAdapter { language: Language::Jsx },
        LanguageAdapter { language: Language::Python },
        LanguageAdapter { language: Language::CSharp },
        LanguageAdapter { language: Language::Go },
        LanguageAdapter { language: Language::Java },
    ]
}

/// Find the adapter of a file extension.
pub fn for_extension(extension: &str) -> (r: Option<LanguageAdapter>)
    ensures
        match language_for(extension@) {
            Some(language) => r == Some(LanguageAdapter { language }),
            None => r is None,
        },
{
    let all = adapters();
    let mut i: usize = 0;
    while i < 9
        invariant
            i <= 9,
            all@.len() == 9,
            forall|k: int|
                0 <= k < all@.len() ==> (#[trigger] all@[k]).language == registered()[k],
            forall|k: int| 0 <= k < i ==> extension@ != (#[trigger] registered()[k]).extension(),
        decreases 9 - i,
    {
        if text::str_eq(extension, all[i].extension()) {
            let adapter = all[i];
            assert(adapter.language == registered()[i as int]);
            assert(forall|k: int|
                0 <= k < i ==> extension@ != (#[trigger] registered()[k]).extension());
            assert(language_for(extension@) == Some(adapter.language)) by {
                assert(i > 0 ==> extension@ != registered()[0].extension());
                assert(i > 1 ==> extension@ != registered()[1].extension());
                assert(i > 2 ==> extension@ != registered()[2].extension());
                assert(i > 3 ==> extension@ != registered()[3].extension());
                assert(i > 4 ==> extension@ != registered()[4].extension());
                assert(i > 5 ==> extension@ != registered()[5].extension());
                assert(i > 6 ==> extension@ != registered()[6].extension());
                assert(i > 7 ==> extension@ != registered()[7].extension());
            }
            return Some(adapter);
        }
        i = i + 1;
    }
    assert(language_for(extension@) is None) by {
        assert(extension@ != registered()[0].extension());
        assert(extension@ != registered()[1].extension());
        assert(extension@ != registered()[2].extension());
        assert(extension@ != registered()[3].extension());
        assert(extension@ != registered()[4].extension());
        assert(extension@ != registered()[5].extension());
        assert(extension@ != registered()[6].extension());
        assert(extension@ != registered()[7].extension());
        assert(extension@ != registered()[8].extension());
    }
    None
}

/// Find the adapter of a path, by its extension.
pub fn for_path(path: &str) -> (r: Option<LanguageAdapter>)
    ensures
        match language_of_path(path@) {
            Some(language) => r == Some(LanguageAdapter { language }),
            None => r is None,
        },
{
    match paths::extension_of(path) {
        Some(extension) => for_extension(extension.as_str()),
        None => None,
    }
}

/// List the registered language identifiers, in order.
pub fn identifiers() -> (r: Vec<&'static str>)
    ensures
        r@.len() == registered().len(),
        forall|i: int| 0 <= i < r@.len() ==> (#[trigger] r@[i])@ == registered()[i].identifier(),
{
    let all = adapters();
    let mut out: Vec<&'static str> = Vec::new();
    let mut i: usize = 0;
    while i < 9
        invariant
            i <= 9,
            all@.len() == 9,
            forall|k: int|
                0 <= k < all@.len() ==> (#[trigger] all@[k]).language == registered()[k],
            out@.len() == i,
            forall|k: int| 0 <= k < i ==> (#[trigger] out@[k])@ == registered()[k].identifier(),
        decreases 9 - i,
    {
        out.push(all[i].identifier());
        i = i + 1;
    }
    out
}

/// Report whether `identifier` is a registered language identifier.
///
/// Extensions are not accepted as identifiers.
pub fn is_registered_identifier(identifier: &str) -> (r: bool)
    ensures
        r == exists|language: Language| #[trigger] language.identifier() == identifier@,
{
    let all = adapters();
    let mut i: usize = 0;
    while i < 9
        invariant
            i <= 9,
            all@.len() == 9,
            forall|k: int|
                0 <= k < all@.len() ==> (#[trigger] all@[k]).language == registered()[k],
            forall|k: int| 0 <= k < i ==> identifier@ != (#[trigger] registered()[k]).identifier(),
        decreases 9 - i,
    {
        if text::str_eq(identifier, all[i].identifier()) {
            assert(all@[i as int].language.identifier() == identifier@);
            return true;
        }
        i = i + 1;
    }
    proof {
        assert forall|language: Language| #[trigger] language.identifier() != identifier@ by {
            lemma_every_language_is_registered(language);
        }
    }
    false
}

/// Every language has its place in the registration order.
pub proof fn lemma_every_language_is_registered(language: Language)
    ensures
        registered().contains(language),
{
    let place: int = match language {
        Language::Rust => 0,
        Language::TypeScript => 1,
        Language::Tsx => 2,
        Language::JavaScript => 3,
        Language::Jsx => 4,
        Language::Python => 5,
        Language::CSharp => 6,
        Language::Go => 7,
        Language::Java => 8,
    };
    assert(registered()[place] == language);
}

/// Each registered extension finds its own language, and no two languages share an
/// identifier.
pub proof fn law_extensions_and_identifiers_are_distinct(a: Language, b: Language)
    ensures
        language_for(a.extension()) == Some(a),
        a.identifier() == b.identifier() ==> a == b,
{
    reveal_strlit("rs");
    reveal_strlit("ts");
    reveal_strlit("tsx");
    reveal_strlit("js");
    reveal_strlit("jsx");
    reveal_strlit("py");
    reveal_strlit("cs");
    reveal_strlit("go");
    reveal_strlit("java");
    reveal_strlit("rust");
    reveal_strlit("typescript");
    reveal_strlit("javascript");
    reveal_strlit("python");
    reveal_strlit("csharp");
    let ea = a.extension();
    let (ia, ib) = (a.identifier(), b.identifier());
    assert forall|l: Language| #[trigger] l.extension() == ea implies l == a by {
        let el = l.extension();
        assert(el[0] == ea[0] && el[1] == ea[1] && el.len() == ea.len());
    }
    assert(ea.len() >= 2 && ia.len() >= 2 && ib.len() >= 2);
    assert(ia == ib ==> ia[0] == ib[0] && ia[1] == ib[1] && ia.len() == ib.len());
}

/// An identifier is made of letters.
pub proof fn lemma_identifiers_are_letters(language: Language)
    ensures
        forall|k: int|
            0 <= k < language.identifier().len() ==> 'a' <= #[trigger] language.identifier()[k]
                <= 'z',
{
    reveal_strlit("rust");
    reveal_strlit("typescript");
    reveal_strlit("tsx");
    reveal_strlit("javascript");
    reveal_strlit("jsx");
    reveal_strlit("python");
    reveal_strlit("csharp");
    reveal_strlit("go");
    reveal_strlit("java");
}

/// The glob of a language is its extension behind `*.`.
pub proof fn law_globs_name_the_extension(language: Language)
    ensures
        language.glob() == "*."@ + language.extension(),
{
    reveal_strlit("*.");
    reveal_strlit("rs");
    reveal_strlit("*.rs");
    reveal_strlit("ts");
    reveal_strlit("*.ts");
    reveal_strlit("tsx");
    reveal_strlit("*.tsx");
    reveal_strlit("js");
    reveal_strlit("*.js");
    reveal_strlit("jsx");
    reveal_strlit("*.jsx");
    reveal_strlit("py");
    reveal_strlit("*.py");
    reveal_strlit("cs");
    reveal_strlit("*.cs");
    reveal_strlit("go");
    reveal_strlit("java");
    reveal_strlit("*.go");
    reveal_strlit("*.java");
    assert(language.glob() =~= "*."@ + language.extension());
}

/// The language of a file is the one whose extension its name has, in whatever directory it
/// stands; a file with another extension has none.
pub proof fn law_files_have_the_language_of_their_extension(
    directory: Seq<char>,
    stem: Seq<char>,
    language: Language,
    path: Seq<char>,
)
    requires
        stem.len() > 0,
        !stem.contains('/'),
    ensures
        language_of_path(directory + seq!['/'] + (stem + seq!['.'] + language.extension())) == Some(
            language,
        ),
        language_of_path(path) matches Some(found) ==> paths::extension(path) == Some(
            found.extension(),
        ),
{
    let extension = language.extension();
    law_extensions_and_identifiers_are_distinct(language, language);
    assert(!extension.contains('/') && !extension.contains('.') && extension.len() > 0) by {
        reveal_strlit("rs");
        reveal_strlit("ts");
        reveal_strlit("tsx");
        reveal_strlit("js");
        reveal_strlit("jsx");
        reveal_strlit("py");
        reveal_strlit("cs");
        reveal_strlit("go");
        reveal_strlit("java");
    }
    paths::law_extensions_stand_behind_the_last_dot(directory, stem, extension);
}

/// What opens a new part is a declaration.
pub proof fn law_boundaries_are_declarations(syntax: Syntax, kind: Seq<char>)
    ensures
        boundary_kind(syntax, kind) ==> declaration_kind(syntax, kind),
{
}

/// Comments stand in front of something else in every syntax: they are neither declarations
/// nor containers.
pub proof fn law_comments_are_prefixes(syntax: Syntax)
    ensures
        match syntax {
            Syntax::Rust | Syntax::Java => prefix_kind(syntax, "line_comment"@) && prefix_kind(
                syntax,
                "block_comment"@,
            ),
            _ => prefix_kind(syntax, "comment"@),
        },
        syntax == Syntax::Rust ==> prefix_kind(syntax, "attribute_item"@) && prefix_kind(
            syntax,
            "inner_attribute_item"@,
        ),
        syntax == Syntax::EcmaScript || syntax == Syntax::Python ==> prefix_kind(
            syntax,
            "decorator"@,
        ),
        syntax == Syntax::CSharp ==> prefix_kind(syntax, "attribute_list"@),
{
}

/// What defines a name is a declaration in every syntax, and what holds definitions is a
/// container: the root of a file, and the bodies of types and of blocks.
pub proof fn law_definitions_are_declarations()
    ensures
        declaration_kind(Syntax::Rust, "function_item"@),
        declaration_kind(Syntax::Rust, "struct_item"@),
        declaration_kind(Syntax::Rust, "enum_item"@),
        declaration_kind(Syntax::Rust, "macro_definition"@),
        declaration_kind(Syntax::EcmaScript, "function_declaration"@),
        declaration_kind(Syntax::EcmaScript, "generator_function_declaration"@),
        declaration_kind(Syntax::EcmaScript, "function_signature"@),
        declaration_kind(Syntax::EcmaScript, "class_declaration"@),
        declaration_kind(Syntax::EcmaScript, "abstract_class_declaration"@),
        declaration_kind(Syntax::EcmaScript, "method_definition"@),
        declaration_kind(Syntax::EcmaScript, "method_signature"@),
        declaration_kind(Syntax::EcmaScript, "abstract_method_signature"@),
        declaration_kind(Syntax::EcmaScript, "interface_declaration"@),
        declaration_kind(Syntax::EcmaScript, "type_alias_declaration"@),
        declaration_kind(Syntax::EcmaScript, "enum_declaration"@),
        declaration_kind(Syntax::EcmaScript, "ambient_declaration"@),
        declaration_kind(Syntax::EcmaScript, "lexical_declaration"@),
        declaration_kind(Syntax::EcmaScript, "variable_declaration"@),
        declaration_kind(Syntax::EcmaScript, "variable_declarator"@),
        declaration_kind(Syntax::EcmaScript, "arrow_function"@),
        declaration_kind(Syntax::EcmaScript, "export_statement"@),
        declaration_kind(Syntax::Python, "function_definition"@),
        declaration_kind(Syntax::Python, "class_definition"@),
        declaration_kind(Syntax::Python, "decorated_definition"@),
        declaration_kind(Syntax::CSharp, "namespace_declaration"@),
        declaration_kind(Syntax::CSharp, "file_scoped_namespace_declaration"@),
        declaration_kind(Syntax::CSharp, "class_declaration"@),
        declaration_kind(Syntax::CSharp, "struct_declaration"@),
        declaration_kind(Syntax::CSharp, "interface_declaration"@),
        declaration_kind(Syntax::CSharp, "record_declaration"@),
        declaration_kind(Syntax::CSharp, "enum_declaration"@),
        declaration_kind(Syntax::CSharp, "delegate_declaration"@),
        declaration_kind(Syntax::CSharp, "method_declaration"@),
        declaration_kind(Syntax::CSharp, "constructor_declaration"@),
        declaration_kind(Syntax::CSharp, "destructor_declaration"@),
        declaration_kind(Syntax::CSharp, "operator_declaration"@),
        declaration_kind(Syntax::CSharp, "property_declaration"@),
        declaration_kind(Syntax::CSharp, "indexer_declaration"@),
        declaration_kind(Syntax::CSharp, "event_field_declaration"@),
        declaration_kind(Syntax::CSharp, "event_declaration"@),
        declaration_kind(Syntax::CSharp, "field_declaration"@),
        declaration_kind(Syntax::CSharp, "base_field_declaration"@),
        declaration_kind(Syntax::CSharp, "local_function_statement"@),
        declaration_kind(Syntax::Go, "function_declaration"@),
        declaration_kind(Syntax::Go, "method_declaration"@),
        declaration_kind(Syntax::Go, "type_declaration"@),
        declaration_kind(Syntax::Go, "const_declaration"@),
        declaration_kind(Syntax::Go, "var_declaration"@),
        declaration_kind(Syntax::Java, "package_declaration"@),
        declaration_kind(Syntax::Java, "import_declaration"@),
        declaration_kind(Syntax::Java, "class_declaration"@),
        declaration_kind(Syntax::Java, "interface_declaration"@),
        declaration_kind(Syntax::Java, "enum_declaration"@),
        declaration_kind(Syntax::Java, "record_declaration"@),
        declaration_kind(Syntax::Java, "annotation_type_declaration"@),
        declaration_kind(Syntax::Java, "method_declaration"@),
        declaration_kind(Syntax::Java, "constructor_declaration"@),
        declaration_kind(Syntax::Java, "compact_constructor_declaration"@),
        declaration_kind(Syntax::Java, "field_declaration"@),
        declaration_kind(Syntax::Java, "constant_declaration"@),
        declaration_kind(Syntax::Java, "annotation_type_element_declaration"@),
        container_kind(Syntax::Rust, "source_file"@),
        container_kind(Syntax::Rust, "declaration_list"@),
        container_kind(Syntax::Rust, "impl_item"@),
        container_kind(Syntax::Rust, "mod_item"@),
        container_kind(Syntax::Rust, "trait_item"@),
        container_kind(Syntax::EcmaScript, "program"@),
        container_kind(Syntax::EcmaScript, "class_body"@),
        container_kind(Syntax::EcmaScript, "interface_body"@),
        container_kind(Syntax::EcmaScript, "object_type"@),
        container_kind(Syntax::EcmaScript, "statement_block"@),
        container_kind(Syntax::Python, "module"@),
        container_kind(Syntax::Python, "block"@),
        container_kind(Syntax::CSharp, "compilation_unit"@),
        container_kind(Syntax::CSharp, "namespace_declaration"@),
        container_kind(Syntax::CSharp, "file_scoped_namespace_declaration"@),
        container_kind(Syntax::CSharp, "declaration_list"@),
        container_kind(Syntax::CSharp, "class_body"@),
        container_kind(Syntax::CSharp, "enum_body"@),
        container_kind(Syntax::CSharp, "block"@),
        container_kind(Syntax::Go, "source_file"@),
        container_kind(Syntax::Java, "program"@),
        container_kind(Syntax::Java, "class_body"@),
        container_kind(Syntax::Java, "interface_body"@),
        container_kind(Syntax::Java, "enum_body"@),
        container_kind(Syntax::Java, "enum_body_declarations"@),
        container_kind(Syntax::Java, "annotation_type_body"@),
        container_kind(Syntax::Java, "constructor_body"@),
        container_kind(Syntax::Java, "block"@),
{
}

/// The head of a declaration is kept with its body, where the body is a container, in all
/// syntaxes but those of Rust and Go, which keep nothing in front of a child. In those of C#
/// and Java nothing else is kept.
pub proof fn law_heads_are_kept_with_their_bodies(
    syntax: Syntax,
    parent: Seq<char>,
    child: Seq<char>,
)
    ensures
        syntax == Syntax::Rust || syntax == Syntax::Go ==> !attaches(syntax, parent, child),
        syntax != Syntax::Rust && syntax != Syntax::Go && declaration_kind(syntax, parent)
            && container_kind(syntax, child) ==> attaches(syntax, parent, child),
        attaches(syntax, parent, child) ==> declaration_kind(syntax, parent),
        attaches(syntax, parent, child) && syntax != Syntax::EcmaScript ==> container_kind(
            syntax,
            child,
        ) || declaration_kind(syntax, child),
        attaches(syntax, parent, child) && (syntax == Syntax::CSharp || syntax == Syntax::Java)
            ==> container_kind(syntax, child),
        declaration_kind(Syntax::Python, child) ==> attaches(
            Syntax::Python,
            "decorated_definition"@,
            child,
        ),
        attaches(Syntax::EcmaScript, "export_statement"@, child),
{
}

} // verus!
