//! Parsing source code.

use locus::code::{
    constant_name, convention_tag, crate_name, decorator_name, detect_doc_type, language_name,
    package_of, py_visibility, qualified, unquote, CodeParser,
};
use locus::parser::Parser;
use locus::syntax::Grammar;
use locus::types::{ChunkKind, DocType, ParseError, Visibility};

#[test]
fn test_can_parse_rust_files() {
    let parser = CodeParser::new();
    assert!(parser.can_parse("src/main.rs"));
    assert!(parser.can_parse("/foo/bar/lib.rs"));
}

#[test]
fn test_cannot_parse_markdown() {
    let parser = CodeParser::new();
    assert!(!parser.can_parse("README.md"));
}

#[test]
fn test_cannot_parse_unknown_extension() {
    let parser = CodeParser::new();
    assert!(!parser.can_parse("data.xyz"));
}

#[test]
fn test_parse_simple_function() {
    let parser = CodeParser::new();
    let content = b"pub fn greet(name: &str) -> String {
    format!(\"Hello, {}!\", name)
}
";
    let result = parser.parse("lib.rs", content).unwrap();

    assert_eq!(result.chunks.len(), 1);
    let chunk = &result.chunks[0];
    assert_eq!(chunk.kind, ChunkKind::Function);
    assert_eq!(chunk.label.as_deref(), Some("greet"));
    assert_eq!(chunk.depth, 0);
    assert_eq!(chunk.metadata.language.as_deref(), Some("rust"));
    assert_eq!(chunk.metadata.visibility, Some(Visibility::Public));
    assert!(chunk.metadata.signature.as_ref().unwrap().contains("greet"));
    assert!(chunk.metadata.signature.as_ref().unwrap().contains("-> String"));

    assert!(result.tags.contains(&"lang:rust".to_string()));
    assert!(result.tags.contains(&"kind:function".to_string()));
}

#[test]
fn test_parse_struct_and_impl() {
    let parser = CodeParser::new();
    let content = b"pub struct Counter {
    value: u32,
}

impl Counter {
    pub fn new() -> Self {
        Self { value: 0 }
    }

    fn increment(&mut self) {
        self.value += 1;
    }
}
";
    let result = parser.parse("counter.rs", content).unwrap();

    // Should have: struct Counter, Counter::new, Counter::increment
    assert_eq!(result.chunks.len(), 3);

    let struct_chunk = result.chunks.iter().find(|c| c.kind == ChunkKind::Class).unwrap();
    assert_eq!(struct_chunk.label.as_deref(), Some("Counter"));
    assert_eq!(struct_chunk.metadata.visibility, Some(Visibility::Public));

    let methods: Vec<_> = result.chunks.iter().filter(|c| c.kind == ChunkKind::Method).collect();
    assert_eq!(methods.len(), 2);

    let new_method = methods.iter().find(|c| c.label.as_ref().unwrap().contains("new")).unwrap();
    assert_eq!(new_method.label.as_deref(), Some("Counter::new"));
    assert_eq!(new_method.depth, 1);
    assert_eq!(new_method.metadata.visibility, Some(Visibility::Public));

    let inc_method = methods.iter().find(|c| c.label.as_ref().unwrap().contains("increment")).unwrap();
    assert_eq!(inc_method.label.as_deref(), Some("Counter::increment"));
    assert_eq!(inc_method.metadata.visibility, Some(Visibility::Private));
}

#[test]
fn test_parse_use_imports() {
    let parser = CodeParser::new();
    let content = b"use std::collections::HashMap;
use serde::{Serialize, Deserialize};
use crate::types::MyType;

fn main() {}
";
    let result = parser.parse("main.rs", content).unwrap();

    // Should have imports for std, serde (not crate)
    let import_targets: Vec<_> = result.links.iter().map(|l| l.target.as_str()).collect();
    assert!(import_targets.contains(&"std"));
    assert!(import_targets.contains(&"serde"));
    assert!(!import_targets.contains(&"crate"));
}

#[test]
fn test_parse_enum_and_trait() {
    let parser = CodeParser::new();
    let content = b"pub enum Color {
    Red,
    Green,
    Blue,
}

pub trait Paintable {
    fn paint(&self, color: Color);
}
";
    let result = parser.parse("types.rs", content).unwrap();

    assert_eq!(result.chunks.len(), 2);
    assert!(result.tags.contains(&"kind:enum".to_string()));
    assert!(result.tags.contains(&"kind:trait".to_string()));

    let enum_chunk = result.chunks.iter().find(|c| c.label.as_deref() == Some("Color")).unwrap();
    assert_eq!(enum_chunk.kind, ChunkKind::Class);

    let trait_chunk = result.chunks.iter().find(|c| c.label.as_deref() == Some("Paintable")).unwrap();
    assert_eq!(trait_chunk.kind, ChunkKind::Class);
}

#[test]
fn test_parse_constants() {
    let parser = CodeParser::new();
    let content = b"pub const MAX_SIZE: usize = 1024;
static COUNTER: u32 = 0;
";
    let result = parser.parse("constants.rs", content).unwrap();

    assert_eq!(result.chunks.len(), 2);
    assert!(result.chunks.iter().all(|c| c.kind == ChunkKind::Constant));
}

#[test]
fn test_detect_test_file() {
    let parser = CodeParser::new();
    let content = b"fn main() {}";
    let result = parser.parse("src/parser_test.rs", content).unwrap();
    assert_eq!(result.auto_type, Some(DocType::TestFile));
}

#[test]
fn test_detect_source_file() {
    let parser = CodeParser::new();
    let content = b"fn main() {}";
    let result = parser.parse("src/parser.rs", content).unwrap();
    assert_eq!(result.auto_type, Some(DocType::SourceFile));
}

#[test]
fn test_nested_depth() {
    let parser = CodeParser::new();
    let content = b"mod outer {
    pub fn inner_fn() {}
}
";
    let result = parser.parse("nested.rs", content).unwrap();

    let module = result.chunks.iter().find(|c| c.kind == ChunkKind::Module).unwrap();
    assert_eq!(module.depth, 0);

    let function = result.chunks.iter().find(|c| c.kind == ChunkKind::Function).unwrap();
    assert_eq!(function.depth, 1);
}

// ── TypeScript tests ─────────────────────────────────────────

#[test]
fn test_can_parse_typescript_files() {
    let parser = CodeParser::new();
    assert!(parser.can_parse("src/index.ts"));
    assert!(parser.can_parse("src/App.tsx"));
    assert!(parser.can_parse("src/util.js"));
    assert!(parser.can_parse("src/Component.jsx"));
}

#[test]
fn test_parse_ts_function_and_export() {
    let parser = CodeParser::new();
    let content = b"function internal() { return 1; }
export function greet(name: string): string {
    return `Hello, ${name}!`;
}
";
    let result = parser.parse("utils.ts", content).unwrap();

    assert!(result.tags.contains(&"lang:typescript".to_string()));
    assert!(result.tags.contains(&"kind:function".to_string()));

    let fns: Vec<_> = result.chunks.iter().filter(|c| c.kind == ChunkKind::Function).collect();
    assert_eq!(fns.len(), 2);

    let internal = fns.iter().find(|c| c.label.as_deref() == Some("internal")).unwrap();
    assert_eq!(internal.metadata.visibility, Some(Visibility::Private));

    let greet = fns.iter().find(|c| c.label.as_deref() == Some("greet")).unwrap();
    assert_eq!(greet.metadata.visibility, Some(Visibility::Public));
}

#[test]
fn test_parse_ts_class_with_methods() {
    let parser = CodeParser::new();
    let content = b"export class UserService {
    constructor(private db: Database) {}

    async getUser(id: string): Promise<User> {
        return this.db.find(id);
    }

    deleteUser(id: string): void {
        this.db.delete(id);
    }
}
";
    let result = parser.parse("service.ts", content).unwrap();

    assert!(result.tags.contains(&"kind:class".to_string()));
    assert!(result.tags.contains(&"kind:method".to_string()));

    let class = result.chunks.iter().find(|c| c.kind == ChunkKind::Class).unwrap();
    assert_eq!(class.label.as_deref(), Some("UserService"));
    assert_eq!(class.metadata.visibility, Some(Visibility::Public));

    let methods: Vec<_> = result.chunks.iter().filter(|c| c.kind == ChunkKind::Method).collect();
    assert!(methods.len() >= 2, "expected at least 2 methods, got {}", methods.len());
}

#[test]
fn test_parse_ts_interface_and_type() {
    let parser = CodeParser::new();
    let content = b"export interface User {
    id: string;
    name: string;
}

export type UserId = string;

interface Internal {
    secret: boolean;
}
";
    let result = parser.parse("types.ts", content).unwrap();

    assert!(result.tags.contains(&"kind:interface".to_string()));
    assert!(result.tags.contains(&"kind:type".to_string()));

    let user = result.chunks.iter().find(|c| c.label.as_deref() == Some("User")).unwrap();
    assert_eq!(user.metadata.visibility, Some(Visibility::Public));

    let internal = result.chunks.iter().find(|c| c.label.as_deref() == Some("Internal")).unwrap();
    assert_eq!(internal.metadata.visibility, Some(Visibility::Private));
}

#[test]
fn test_parse_ts_imports() {
    let parser = CodeParser::new();
    let content = b"import { useState, useEffect } from 'react';
import express from 'express';
import { Foo } from './local';
import { Bar } from '@scope/pkg';

export function App() { return null; }
";
    let result = parser.parse("App.tsx", content).unwrap();

    let targets: Vec<_> = result.links.iter().map(|l| l.target.as_str()).collect();
    assert!(targets.contains(&"react"), "should have react import");
    assert!(targets.contains(&"express"), "should have express import");
    assert!(targets.contains(&"@scope/pkg"), "should have scoped import");
    // Relative imports should be skipped
    assert!(!targets.iter().any(|t| t.starts_with(".")), "should skip relative imports");
}

#[test]
fn test_parse_ts_arrow_functions() {
    let parser = CodeParser::new();
    let content = b"export const fetchData = async (url: string) => {
    const res = await fetch(url);
    return res.json();
};

const helper = () => 42;
";
    let result = parser.parse("api.ts", content).unwrap();

    assert!(result.tags.contains(&"kind:function".to_string()));

    let fns: Vec<_> = result.chunks.iter().filter(|c| c.kind == ChunkKind::Function).collect();
    assert_eq!(fns.len(), 2);

    let fetch = fns.iter().find(|c| c.label.as_deref() == Some("fetchData")).unwrap();
    assert_eq!(fetch.metadata.visibility, Some(Visibility::Public));

    let helper = fns.iter().find(|c| c.label.as_deref() == Some("helper")).unwrap();
    assert_eq!(helper.metadata.visibility, Some(Visibility::Private));
}

#[test]
fn test_parse_tsx_without_errors() {
    let parser = CodeParser::new();
    let content = b"import React from 'react';

interface Props {
    name: string;
}

export function Greeting({ name }: Props) {
    return <div>Hello, {name}!</div>;
}
";
    let result = parser.parse("Greeting.tsx", content).unwrap();
    assert!(result.tags.contains(&"lang:typescript".to_string()));
    assert!(!result.chunks.is_empty(), "should extract chunks from TSX");
}

#[test]
fn test_parse_ts_enum() {
    let parser = CodeParser::new();
    let content = b"export enum Direction {
    Up,
    Down,
    Left,
    Right,
}
";
    let result = parser.parse("enums.ts", content).unwrap();
    assert!(result.tags.contains(&"kind:enum".to_string()));
    let e = result.chunks.iter().find(|c| c.label.as_deref() == Some("Direction")).unwrap();
    assert_eq!(e.kind, ChunkKind::Class);
    assert_eq!(e.metadata.visibility, Some(Visibility::Public));
}

// ── Python tests ─────────────────────────────────────────────

#[test]
fn test_can_parse_python_files() {
    let parser = CodeParser::new();
    assert!(parser.can_parse("main.py"));
    assert!(parser.can_parse("src/utils.py"));
}

#[test]
fn test_parse_py_function() {
    let parser = CodeParser::new();
    let content = b"def greet(name: str) -> str:
    return f'Hello, {name}!'

def _internal():
    pass
";
    let result = parser.parse("utils.py", content).unwrap();

    assert!(result.tags.contains(&"lang:python".to_string()));
    assert!(result.tags.contains(&"kind:function".to_string()));

    let fns: Vec<_> = result.chunks.iter().filter(|c| c.kind == ChunkKind::Function).collect();
    assert_eq!(fns.len(), 2);

    let greet = fns.iter().find(|c| c.label.as_deref() == Some("greet")).unwrap();
    assert_eq!(greet.metadata.visibility, Some(Visibility::Public));

    let internal = fns.iter().find(|c| c.label.as_deref() == Some("_internal")).unwrap();
    assert_eq!(internal.metadata.visibility, Some(Visibility::Private));
}

#[test]
fn test_parse_py_class_with_methods() {
    let parser = CodeParser::new();
    let content = b"class UserService:
    def __init__(self, db):
        self.db = db

    def get_user(self, user_id: str):
        return self.db.find(user_id)

    def _validate(self, data):
        pass
";
    let result = parser.parse("service.py", content).unwrap();

    assert!(result.tags.contains(&"kind:class".to_string()));
    assert!(result.tags.contains(&"kind:method".to_string()));

    let class = result.chunks.iter().find(|c| c.kind == ChunkKind::Class).unwrap();
    assert_eq!(class.label.as_deref(), Some("UserService"));
    assert_eq!(class.depth, 0);

    let methods: Vec<_> = result.chunks.iter().filter(|c| c.kind == ChunkKind::Method).collect();
    assert_eq!(methods.len(), 3);

    let validate = methods.iter().find(|c| c.label.as_deref() == Some("_validate")).unwrap();
    assert_eq!(validate.metadata.visibility, Some(Visibility::Private));
    assert_eq!(validate.depth, 1);
}

#[test]
fn test_parse_py_imports() {
    let parser = CodeParser::new();
    let content = b"import os
import sys
from collections import OrderedDict
from .local import helper
from flask import Flask

def main():
    pass
";
    let result = parser.parse("app.py", content).unwrap();

    let targets: Vec<_> = result.links.iter().map(|l| l.target.as_str()).collect();
    assert!(targets.contains(&"os"), "should have os import");
    assert!(targets.contains(&"sys"), "should have sys import");
    assert!(targets.contains(&"collections"), "should have collections import");
    assert!(targets.contains(&"flask"), "should have flask import");
    // Relative imports should be skipped
    assert!(!targets.iter().any(|t| t.starts_with(".")), "should skip relative imports");
}

#[test]
fn test_parse_py_constants() {
    let parser = CodeParser::new();
    let content = b"MAX_SIZE = 1024
DEFAULT_NAME = 'test'
_PRIVATE_CONST = True

def func():
    pass
";
    let result = parser.parse("config.py", content).unwrap();

    let consts: Vec<_> = result.chunks.iter().filter(|c| c.kind == ChunkKind::Constant).collect();
    assert!(consts.len() >= 2, "expected at least 2 constants, got {}", consts.len());

    let private = consts.iter().find(|c| c.label.as_deref() == Some("_PRIVATE_CONST"));
    if let Some(p) = private {
        assert_eq!(p.metadata.visibility, Some(Visibility::Private));
    }
}

#[test]
fn test_parse_py_decorated_functions() {
    let parser = CodeParser::new();
    let content = b"import pytest

@pytest.fixture
def db_connection():
    return connect()

@app.route('/users')
def list_users():
    return []
";
    let result = parser.parse("test_app.py", content).unwrap();

    let fns: Vec<_> = result.chunks.iter().filter(|c| c.kind == ChunkKind::Function).collect();
    assert!(fns.len() >= 2, "expected at least 2 functions, got {}", fns.len());

    // Convention tags from decorators
    assert!(result.tags.contains(&"convention:fixture".to_string()));
    assert!(result.tags.contains(&"convention:route".to_string()));
}

#[test]
fn test_parse_py_test_file_detection() {
    let parser = CodeParser::new();
    let content = b"def test_something():
    assert True
";
    let result = parser.parse("tests/test_utils.py", content).unwrap();
    assert_eq!(result.auto_type, Some(DocType::TestFile));
}

// ── More on parsing ──────────────────────────────────────────────

#[test]
fn async_functions_are_tagged() {
    let p = CodeParser::new();
    let rust = p.parse("a.rs", b"pub async fn go() {}\n").unwrap();
    assert!(rust.tags.contains(&"async:true".to_string()));
    let plain = p.parse("a.rs", b"pub fn go() {}\n").unwrap();
    assert!(!plain.tags.contains(&"async:true".to_string()));
    let ts = p.parse("a.ts", b"async function go() {}\n").unwrap();
    assert!(ts.tags.contains(&"async:true".to_string()));
}

#[test]
fn tags_are_never_repeated() {
    let p = CodeParser::new();
    let r = p.parse("a.rs", b"fn a() {}\nfn b() {}\nfn c() {}\nuse x::y;\nuse x::z;\n").unwrap();
    let mut seen = r.tags.clone();
    seen.sort();
    seen.dedup();
    assert_eq!(seen.len(), r.tags.len());
}

#[test]
fn crate_visibility_is_internal() {
    let p = CodeParser::new();
    let r = p.parse("a.rs", b"pub(crate) fn a() {}\n").unwrap();
    assert_eq!(r.chunks[0].metadata.visibility, Some(Visibility::Internal));
}

#[test]
fn methods_of_a_trait_impl_name_both() {
    let p = CodeParser::new();
    let r = p
        .parse("a.rs", b"impl Shape for Disc {\n    fn area(&self) -> u32 { 1 }\n}\n")
        .unwrap();
    let m = r.chunks.iter().find(|c| c.kind == ChunkKind::Method).unwrap();
    assert_eq!(m.label.as_deref(), Some("<Disc as Shape>::area"));
}

#[test]
fn byte_ranges_hold_the_item() {
    let p = CodeParser::new();
    let src = "// comment\nfn go() { let s = 1; }\nconst N: u8 = 1;\n";
    let r = p.parse("a.rs", src.as_bytes()).unwrap();
    assert!(src[r.chunks[0].byte_range.clone()].starts_with("fn go()"));
    assert_eq!(&src[r.chunks[1].byte_range.clone()], "const N: u8 = 1;");
}

#[test]
fn other_extensions_are_refused_until_registered() {
    let mut p = CodeParser::new();
    assert!(matches!(p.parse("a.xyz", b"fn a() {}"), Err(ParseError::Unsupported(_))));
    p.register_language("xyz", Grammar::Rust);
    assert!(p.can_parse("a.xyz"));
    assert_eq!(p.language_for("a.xyz"), Some(Grammar::Rust));
    assert_eq!(p.parse("a.xyz", b"fn a() {}").unwrap().tags, vec!["lang:unknown"]);
    assert_eq!(p.language_for("a.py"), Some(Grammar::Python));
    assert_eq!(p.language_for("a.tsx"), Some(Grammar::Tsx));
    assert_eq!(p.language_for("a"), None);
}

#[test]
fn code_that_is_not_text_is_refused() {
    let p = CodeParser::new();
    assert!(matches!(p.parse("a.rs", &[0xff, 0xfe]), Err(ParseError::InvalidUtf8)));
}

// ── Names ────────────────────────────────────────────────────────

#[test]
fn names_of_imports() {
    assert_eq!(crate_name("serde::Deserialize"), "serde");
    assert_eq!(crate_name("std"), "std");
    assert_eq!(package_of("@scope/pkg/deep"), "@scope/pkg");
    assert_eq!(package_of("react/jsx-runtime"), "react");
    assert_eq!(unquote("'react'"), "react");
    assert_eq!(unquote("\"react\""), "react");
}

#[test]
fn names_of_python() {
    assert_eq!(py_visibility("_x"), Visibility::Private);
    assert_eq!(py_visibility("x"), Visibility::Public);
    assert!(constant_name("MAX_SIZE"));
    assert!(!constant_name("Max"));
    assert_eq!(decorator_name("@app.route('/x')"), "app.route('/x')");
    assert_eq!(convention_tag("pytest.fixture"), Some("convention:fixture".to_string()));
    assert_eq!(convention_tag("app.route"), Some("convention:route".to_string()));
}

#[test]
fn names_of_methods() {
    let ty = Some("T".to_string());
    let tr = Some("U".to_string());
    assert_eq!(qualified(&ty, &None, "f".to_string()), "T::f");
    assert_eq!(qualified(&ty, &tr, "f".to_string()), "<T as U>::f");
    assert_eq!(qualified(&None, &None, "f".to_string()), "f");
}

#[test]
fn kinds_of_files() {
    assert_eq!(detect_doc_type("p/tests/a.rs"), Some(DocType::TestFile));
    assert_eq!(detect_doc_type("src/a.rs"), Some(DocType::SourceFile));
    assert_eq!(language_name("a.py"), "python");
    assert_eq!(language_name("a.tsx"), "typescript");
    assert_eq!(language_name("a.rs"), "rust");
}

#[test]
fn a_source_file_without_items_is_one_chunk() {
    let parser = CodeParser::new();
    let content = b"// nothing here\n";
    let r = parser.parse("lib.rs", content).unwrap();
    assert_eq!(r.chunks.len(), 1);
    assert_eq!(r.chunks[0].byte_range, 0..content.len());
    assert_eq!(r.chunks[0].kind, ChunkKind::Body);
    let r = parser.parse("lib.rs", b"").unwrap();
    assert_eq!(r.chunks.len(), 1);
    assert_eq!(r.chunks[0].byte_range, 0..0);
}
