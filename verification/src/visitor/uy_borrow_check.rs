use std::ops::Range;
use vstd::prelude::*;
use vstd::string::StrSliceExecFns;

use crate::ast::{
    Arg, Event, Expr, Func, Kwarg, Name, Project, Sprite, Stmt, StructLiteralField, Type, TypeView,
};
use crate::diagnostic::{
    diagnostics_view, lemma_diagnostics_view_concat, Diagnostic, DiagnosticKind,
    DiagnosticKindView, DiagnosticView, SpriteDiagnostics,
};
use crate::ast::Var;
use crate::names::{find_in, lemma_find_in, same_text, NameMap};
use crate::visitor::uy_type_check::{
    entries_related, find_kwarg, kwarg_index, lemma_find_in_same_names, lemma_kwarg_index,
    min_len, same_diagnostic_targets,
};

verus! {

/// The prefix of a parameter name that the lexer encodes a reference parameter
/// into: `@uyref:<0|1>:<type>:<name>`.
pub open spec fn ref_arg_prefix() -> Seq<char> {
    "@uyref:"@
}

/// The prefix of a name that the lexer encodes a borrow expression into:
/// `@uyborrow:<0|1>:<name>`.
pub open spec fn borrow_prefix() -> Seq<char> {
    "@uyborrow:"@
}

/// The index of the first `:` in `s` at or after `i`.
pub open spec fn colon_from(s: Seq<char>, i: int) -> Option<int>
    decreases s.len() - i,
{
    if i < 0 || i >= s.len() {
        None
    } else if s[i] == ':' {
        Some(i)
    } else {
        colon_from(s, i + 1)
    }
}

pub proof fn lemma_colon_from(s: Seq<char>, i: int)
    requires
        0 <= i,
    ensures
        match colon_from(s, i) {
            Some(k) => i <= k < s.len() && s[k] == ':' && forall|j: int| i <= j < k ==> s[j] != ':',
            None => forall|j: int| i <= j < s.len() ==> s[j] != ':',
        },
    decreases s.len() - i,
{
    if i < s.len() && s[i] != ':' {
        lemma_colon_from(s, i + 1);
    }
}

/// The first `:` at or after `i` is the one at `k` when none lies between.
pub proof fn lemma_colon_at(s: Seq<char>, i: int, k: int)
    requires
        0 <= i <= k < s.len(),
        s[k] == ':',
        forall|j: int| i <= j < k ==> s[j] != ':',
    ensures
        colon_from(s, i) == Some(k),
    decreases k - i,
{
    if i < k {
        lemma_colon_at(s, i + 1, k);
    }
}

/// `s` starts with `p`.
pub open spec fn has_prefix(s: Seq<char>, p: Seq<char>) -> bool {
    p.len() <= s.len() && s.take(p.len() as int) == p
}

/// The mutability flag of an encoding: `0` shared, `1` mutable.
pub open spec fn flag_spec(f: Seq<char>) -> Option<bool> {
    if f == "0"@ {
        Some(false)
    } else if f == "1"@ {
        Some(true)
    } else {
        None
    }
}

/// Decodes `@uyref:<flag>:<type>:<name>` into (mutable, type, name); the name may
/// hold further colons.
pub open spec fn decode_ref_arg_spec(s: Seq<char>) -> Option<(bool, Seq<char>, Seq<char>)> {
    if !has_prefix(s, ref_arg_prefix()) {
        None
    } else {
        let rest = s.skip(7);
        match colon_from(rest, 0) {
            None => None,
            Some(i) => match colon_from(rest, i + 1) {
                None => None,
                Some(j) => match flag_spec(rest.take(i)) {
                    Some(m) => Some((m, rest.subrange(i + 1, j), rest.skip(j + 1))),
                    None => None,
                },
            },
        }
    }
}

/// Decodes `@uyborrow:<flag>:<name>` into (mutable, name).
pub open spec fn decode_borrow_name_spec(s: Seq<char>) -> Option<(bool, Seq<char>)> {
    if !has_prefix(s, borrow_prefix()) {
        None
    } else {
        let rest = s.skip(10);
        match colon_from(rest, 0) {
            None => None,
            Some(i) => match flag_spec(rest.take(i)) {
                Some(m) => Some((m, rest.skip(i + 1))),
                None => None,
            },
        }
    }
}

/// Whether `s` starts with `p`.
fn starts_with(s: &str, p: &str) -> (r: bool)
    ensures
        r == has_prefix(s@, p@),
{
    let n = s.unicode_len();
    let m = p.unicode_len();
    if m > n {
        return false;
    }
    same_text(s.substring_char(0, m), p)
}

/// The index of the first `:` at or after `from`.
fn find_colon(s: &str, from: usize) -> (r: Option<usize>)
    ensures
        r == (match colon_from(s@, from as int) {
            Some(k) => Some(k as usize),
            None => None,
        }),
{
    proof {
        lemma_colon_from(s@, from as int);
    }
    let n = s.unicode_len();
    let mut i = from;
    while i < n
        invariant
            n == s@.len(),
            from <= i,
            colon_from(s@, i as int) == colon_from(s@, from as int),
        decreases n - i,
    {
        if s.get_char(i) == ':' {
            return Some(i);
        }
        i = i + 1;
    }
    None
}

/// Reads a mutability flag.
fn flag(f: &str) -> (r: Option<bool>)
    ensures
        r == flag_spec(f@),
{
    if same_text(f, "0") {
        Some(false)
    } else if same_text(f, "1") {
        Some(true)
    } else {
        None
    }
}


/// A static type of the borrow checker.
#[derive(Debug)]
pub enum BaseTy {
    Dynamic,
    Number,
    Int,
    String,
    Bool,
    Struct(String),
}

/// The mathematical value of a [`BaseTy`].
pub enum BaseTyView {
    Dynamic,
    Number,
    Int,
    String,
    Bool,
    Struct(Seq<char>),
}

impl View for BaseTy {
    type V = BaseTyView;

    open spec fn view(&self) -> BaseTyView {
        match self {
            BaseTy::Dynamic => BaseTyView::Dynamic,
            BaseTy::Number => BaseTyView::Number,
            BaseTy::Int => BaseTyView::Int,
            BaseTy::String => BaseTyView::String,
            BaseTy::Bool => BaseTyView::Bool,
            BaseTy::Struct(name) => BaseTyView::Struct(name@),
        }
    }
}

/// The type a type name denotes.
pub open spec fn base_of_name(name: Seq<char>) -> BaseTyView {
    if name == "Number"@ {
        BaseTyView::Number
    } else if name == "Int"@ {
        BaseTyView::Int
    } else if name == "String"@ {
        BaseTyView::String
    } else if name == "Bool"@ || name == "Boolean"@ {
        BaseTyView::Bool
    } else if name == "Value"@ || name == "Any"@ {
        BaseTyView::Dynamic
    } else {
        BaseTyView::Struct(name)
    }
}

/// The type an annotation denotes.
pub open spec fn base_of_type(t: TypeView) -> BaseTyView {
    match t {
        TypeView::Value => BaseTyView::Dynamic,
        TypeView::Struct { name, .. } => base_of_name(name),
    }
}

/// A value of type `given` may stand where `expected` is required.
pub open spec fn base_accepts(expected: BaseTyView, given: BaseTyView) -> bool {
    expected is Dynamic || given is Dynamic || expected == given || (expected is Number
        && given is Int)
}

/// Values of the type are moved when consumed: strings and structs.
pub open spec fn base_owned(t: BaseTyView) -> bool {
    t is String || t is Struct
}

/// How diagnostics name the type.
pub open spec fn base_name(t: BaseTyView) -> Seq<char> {
    match t {
        BaseTyView::Dynamic => "value"@,
        BaseTyView::Number => "Number"@,
        BaseTyView::Int => "Int"@,
        BaseTyView::String => "String"@,
        BaseTyView::Bool => "Bool"@,
        BaseTyView::Struct(name) => name,
    }
}

/// The annotation that spells the type at a span.
pub open spec fn base_to_type(t: BaseTyView, start: int, end: int) -> TypeView {
    match t {
        BaseTyView::Dynamic => TypeView::Value,
        _ => TypeView::Struct { name: base_name(t), start, end },
    }
}

impl Clone for BaseTy {
    fn clone(&self) -> (r: Self)
        ensures
            r == *self,
    {
        match self {
            BaseTy::Dynamic => BaseTy::Dynamic,
            BaseTy::Number => BaseTy::Number,
            BaseTy::Int => BaseTy::Int,
            BaseTy::String => BaseTy::String,
            BaseTy::Bool => BaseTy::Bool,
            BaseTy::Struct(name) => BaseTy::Struct(name.clone()),
        }
    }
}

impl BaseTy {
    pub fn from_name(name: &str) -> (r: BaseTy)
        ensures
            r@ == base_of_name(name@),
    {
        if same_text(name, "Number") {
            BaseTy::Number
        } else if same_text(name, "Int") {
            BaseTy::Int
        } else if same_text(name, "String") {
            BaseTy::String
        } else if same_text(name, "Bool") || same_text(name, "Boolean") {
            BaseTy::Bool
        } else if same_text(name, "Value") || same_text(name, "Any") {
            BaseTy::Dynamic
        } else {
            BaseTy::Struct(name.to_owned())
        }
    }

    pub fn from_ast(ty: &Type) -> (r: BaseTy)
        ensures
            r@ == base_of_type(ty@),
    {
        match ty {
            Type::Value => BaseTy::Dynamic,
            Type::Struct { name, .. } => BaseTy::from_name(name.as_str()),
        }
    }

    pub fn accepts(&self, given: &BaseTy) -> (r: bool)
        ensures
            r == base_accepts(self@, given@),
    {
        match (self, given) {
            (BaseTy::Dynamic, _) => true,
            (_, BaseTy::Dynamic) => true,
            (BaseTy::Number, BaseTy::Number) => true,
            (BaseTy::Number, BaseTy::Int) => true,
            (BaseTy::Int, BaseTy::Int) => true,
            (BaseTy::String, BaseTy::String) => true,
            (BaseTy::Bool, BaseTy::Bool) => true,
            (BaseTy::Struct(a), BaseTy::Struct(b)) => same_text(a.as_str(), b.as_str()),
            _ => false,
        }
    }

    pub fn owned(&self) -> (r: bool)
        ensures
            r == base_owned(self@),
    {
        match self {
            BaseTy::String => true,
            BaseTy::Struct(_) => true,
            _ => false,
        }
    }

    pub fn to_ast(&self, span: Range<usize>) -> (r: Type)
        ensures
            r@ == base_to_type(self@, span.start as int, span.end as int),
    {
        match self {
            BaseTy::Dynamic => Type::Value,
            _ => Type::Struct { name: self.display(), span },
        }
    }

    pub fn display(&self) -> (r: String)
        ensures
            r@ == base_name(self@),
    {
        match self {
            BaseTy::Dynamic => String::from_str("value"),
            BaseTy::Number => String::from_str("Number"),
            BaseTy::Int => String::from_str("Int"),
            BaseTy::String => String::from_str("String"),
            BaseTy::Bool => String::from_str("Bool"),
            BaseTy::Struct(name) => name.clone(),
        }
    }
}

/// A reference parameter: its mutability, the type it refers to, and the name
/// the body uses for it.
#[derive(Debug)]
pub struct RefSpec {
    pub mutable: bool,
    pub inner: BaseTy,
    pub logical_name: String,
}

/// How diagnostics name a reference type: `&T` or `&mut T`.
pub open spec fn ref_name(mutable: bool, inner: BaseTyView) -> Seq<char> {
    if mutable {
        "&mut "@ + base_name(inner)
    } else {
        "&"@ + base_name(inner)
    }
}

impl RefSpec {
    pub fn to_ast(&self, span: Range<usize>) -> (r: Type)
        ensures
            r@ == (TypeView::Struct {
                name: ref_name(self.mutable, self.inner@),
                start: span.start as int,
                end: span.end as int,
            }),
    {
        let prefix = if self.mutable {
            String::from_str("&mut ")
        } else {
            String::from_str("&")
        };
        Type::Struct { name: prefix.concat(self.inner.display().as_str()), span }
    }
}

impl Clone for RefSpec {
    fn clone(&self) -> (r: Self)
        ensures
            r == *self,
    {
        RefSpec {
            mutable: self.mutable,
            inner: self.inner.clone(),
            logical_name: self.logical_name.clone(),
        }
    }
}

/// Decodes a parameter name that the lexer encoded as a reference parameter.
pub fn decode_ref_arg(name: &str) -> (r: Option<RefSpec>)
    ensures
        match decode_ref_arg_spec(name@) {
            Some((m, t, l)) => r matches Some(spec) && spec.mutable == m && spec.inner@
                == base_of_name(t) && spec.logical_name@ == l,
            None => r is None,
        },
{
    if !starts_with(name, "@uyref:") {
        proof {
            reveal_strlit("@uyref:");
        }
        return None;
    }
    proof {
        reveal_strlit("@uyref:");
    }
    let n = name.unicode_len();
    let rest = name.substring_char(7, n);
    assert(rest@ == name@.skip(7));
    let i = match find_colon(rest, 0) {
        Some(i) => i,
        None => {
            return None;
        },
    };
    proof {
        lemma_colon_from(rest@, 0);
    }
    let j = match find_colon(rest, i + 1) {
        Some(j) => j,
        None => {
            return None;
        },
    };
    proof {
        lemma_colon_from(rest@, i + 1);
    }
    let rest_len = rest.unicode_len();
    let mutable = match flag(rest.substring_char(0, i)) {
        Some(m) => m,
        None => {
            return None;
        },
    };
    let inner_name = rest.substring_char(i + 1, j);
    let logical_name = rest.substring_char(j + 1, rest_len);
    Some(
        RefSpec {
            mutable,
            inner: BaseTy::from_name(inner_name),
            logical_name: logical_name.to_owned(),
        },
    )
}

/// Decodes a name that the lexer encoded as a borrow expression.
pub fn decode_borrow_name(name: &str) -> (r: Option<(bool, String)>)
    ensures
        match decode_borrow_name_spec(name@) {
            Some((m, l)) => r matches Some(p) && p.0 == m && p.1@ == l,
            None => r is None,
        },
{
    proof {
        reveal_strlit("@uyborrow:");
    }
    if !starts_with(name, "@uyborrow:") {
        return None;
    }
    let n = name.unicode_len();
    let rest = name.substring_char(10, n);
    let i = match find_colon(rest, 0) {
        Some(i) => i,
        None => {
            return None;
        },
    };
    proof {
        lemma_colon_from(rest@, 0);
    }
    let rest_len = rest.unicode_len();
    let mutable = match flag(rest.substring_char(0, i)) {
        Some(m) => m,
        None => {
            return None;
        },
    };
    Some((mutable, rest.substring_char(i + 1, rest_len).to_owned()))
}


/// How a parameter is passed.
#[derive(Debug)]
pub enum ParamTy {
    Value(BaseTy),
    Ref(RefSpec),
}

/// A parameter as the borrow checker sees it.
#[derive(Debug)]
pub struct Param {
    pub name: String,
    pub type_: ParamTy,
}

/// The mathematical value of a [`ParamTy`].
pub enum ParamTyView {
    Value(BaseTyView),
    Ref { mutable: bool, inner: BaseTyView },
}

/// The mathematical value of a [`Param`].
pub struct ParamView {
    pub name: Seq<char>,
    pub ty: ParamTyView,
}

impl View for Param {
    type V = ParamView;

    open spec fn view(&self) -> ParamView {
        ParamView {
            name: self.name@,
            ty: match self.type_ {
                ParamTy::Value(t) => ParamTyView::Value(t@),
                ParamTy::Ref(spec) => ParamTyView::Ref { mutable: spec.mutable, inner: spec.inner@ },
            },
        }
    }
}

/// The parameter a declared argument is: a reference parameter when its name
/// encodes one, else a by-value parameter of its declared type.
pub open spec fn param_spec(arg: Arg) -> ParamView {
    match decode_ref_arg_spec(arg.name@) {
        Some((m, t, l)) => ParamView {
            name: l,
            ty: ParamTyView::Ref { mutable: m, inner: base_of_name(t) },
        },
        None => ParamView { name: arg.name@, ty: ParamTyView::Value(base_of_type(arg.type_@)) },
    }
}

/// The parameters of a signature.
pub open spec fn signature_spec(args: Seq<Arg>) -> Seq<ParamView> {
    args.map_values(|a: Arg| param_spec(a))
}

/// The views of a sequence of parameters.
pub open spec fn params_view(ps: Seq<Param>) -> Seq<ParamView> {
    ps.map_values(|p: Param| p@)
}

pub fn param(arg: &Arg) -> (r: Param)
    ensures
        r@ == param_spec(*arg),
{
    if let Some(spec) = decode_ref_arg(arg.name.as_str()) {
        Param { name: spec.logical_name.clone(), type_: ParamTy::Ref(spec) }
    } else {
        Param { name: arg.name.clone(), type_: ParamTy::Value(BaseTy::from_ast(&arg.type_)) }
    }
}

pub fn signature(args: &Vec<Arg>) -> (r: Vec<Param>)
    ensures
        params_view(r@) == signature_spec(args@),
{
    let mut r: Vec<Param> = Vec::new();
    let mut i: usize = 0;
    while i < args.len()
        invariant
            i <= args@.len(),
            r@.len() == i,
            params_view(r@) == signature_spec(args@.take(i as int)),
        decreases args@.len() - i,
    {
        let ghost before = r@;
        r.push(param(&args[i]));
        assert forall|j: int| 0 <= j < i + 1 implies #[trigger] params_view(r@)[j]
            == signature_spec(args@.take(i + 1))[j] by {
            if j < i {
                assert(r@[j] == before[j]);
                assert(params_view(before)[j] == signature_spec(args@.take(i as int))[j]);
            }
        }
        assert(params_view(r@) =~= signature_spec(args@.take(i + 1)));
        i = i + 1;
    }
    assert(args@.take(i as int) =~= args@);
    r
}

/// What ownership and borrows are tracked for: a variable or a parameter.
#[derive(Debug)]
pub struct Key {
    pub is_arg: bool,
    pub name: String,
}

impl View for Key {
    type V = (bool, Seq<char>);

    open spec fn view(&self) -> (bool, Seq<char>) {
        (self.is_arg, self.name@)
    }
}

impl Key {
    pub fn var(name: String) -> (k: Key)
        ensures
            k@ == (false, name@),
    {
        Key { is_arg: false, name }
    }

    pub fn arg(name: String) -> (k: Key)
        ensures
            k@ == (true, name@),
    {
        Key { is_arg: true, name }
    }
}

impl Clone for Key {
    fn clone(&self) -> (r: Self)
        ensures
            r == *self,
    {
        Key { is_arg: self.is_arg, name: self.name.clone() }
    }
}

/// Whether two keys are the same.
fn same_key(a: &Key, b: &Key) -> (r: bool)
    ensures
        r == (a@ == b@),
{
    a.is_arg == b.is_arg && same_text(a.name.as_str(), b.name.as_str())
}

/// One of the keys is `k`.
pub open spec fn has_key(s: Seq<Key>, k: (bool, Seq<char>)) -> bool {
    exists|i: int| 0 <= i < s.len() && (#[trigger] s[i])@ == k
}

/// A set of keys.
#[derive(Debug)]
pub struct KeySet {
    pub keys: Vec<Key>,
}

impl View for KeySet {
    type V = Set<(bool, Seq<char>)>;

    open spec fn view(&self) -> Set<(bool, Seq<char>)> {
        Set::new(|k: (bool, Seq<char>)| has_key(self.keys@, k))
    }
}

impl KeySet {
    /// No key occurs twice.
    pub open spec fn wf(&self) -> bool {
        forall|i: int, j: int|
            0 <= i < j < self.keys@.len() ==> (#[trigger] self.keys@[i])@ != (
            #[trigger] self.keys@[j])@
    }

    pub fn new() -> (s: Self)
        ensures
            s@ == Set::<(bool, Seq<char>)>::empty(),
            s.wf(),
    {
        let s = KeySet { keys: Vec::new() };
        assert(s@ =~= Set::<(bool, Seq<char>)>::empty());
        s
    }

    pub fn contains(&self, key: &Key) -> (r: bool)
        ensures
            r == self@.contains(key@),
    {
        let mut i: usize = 0;
        while i < self.keys.len()
            invariant
                i <= self.keys@.len(),
                forall|j: int| 0 <= j < i ==> (#[trigger] self.keys@[j])@ != key@,
            decreases self.keys@.len() - i,
        {
            if same_key(&self.keys[i], key) {
                return true;
            }
            i = i + 1;
        }
        false
    }

    pub fn insert(&mut self, key: Key)
        ensures
            final(self)@ == old(self)@.insert(key@),
            old(self).wf() ==> final(self).wf(),
    {
        if self.contains(&key) {
            assert(self@ =~= old(self)@.insert(key@));
            return;
        }
        let ghost k = key@;
        self.keys.push(key);
        assert(self@ =~= old(self)@.insert(k)) by {
            assert(self.keys@[self.keys@.len() - 1]@ == k);
            assert forall|n: (bool, Seq<char>)| old(self)@.contains(n) implies self@.contains(n) by {
                let i = choose|i: int| 0 <= i < old(self).keys@.len() && (#[trigger] old(self).keys@[i])@ == n;
                assert(self.keys@[i] == old(self).keys@[i]);
            }
            assert forall|n: (bool, Seq<char>)| self@.contains(n) implies old(self)@.insert(k).contains(n) by {
                let i = choose|i: int| 0 <= i < self.keys@.len() && (#[trigger] self.keys@[i])@ == n;
                if i < old(self).keys@.len() {
                    assert(old(self).keys@[i] == self.keys@[i]);
                }
            }
        }
    }

    pub fn remove(&mut self, key: &Key)
        ensures
            final(self)@ == old(self)@.remove(key@),
            old(self).wf() ==> final(self).wf(),
    {
        let mut kept: Vec<Key> = Vec::new();
        let mut i: usize = 0;
        while i < self.keys.len()
            invariant
                i <= self.keys@.len(),
                forall|n: (bool, Seq<char>)|
                    #[trigger] has_key(kept@, n) <==> (n != key@ && has_key(
                        self.keys@.take(i as int),
                        n,
                    )),
                self.wf() ==> forall|a: int, b: int|
                    0 <= a < b < kept@.len() ==> (#[trigger] kept@[a])@ != (#[trigger] kept@[b])@,
            decreases self.keys@.len() - i,
        {
            let ghost before = kept@;
            if !same_key(&self.keys[i], key) {
                let c = self.keys[i].clone();
                proof {
                    if self.wf() {
                        assert(!has_key(self.keys@.take(i as int), self.keys@[i as int]@)) by {
                            if has_key(self.keys@.take(i as int), self.keys@[i as int]@) {
                                let k = choose|k: int|
                                    0 <= k < i && (#[trigger] self.keys@.take(i as int)[k])@
                                        == self.keys@[i as int]@;
                                assert(self.keys@[k] == self.keys@.take(i as int)[k]);
                            }
                        }
                        assert(!has_key(before, self.keys@[i as int]@));
                    }
                }
                kept.push(c);
                proof {
                    if self.wf() {
                        assert forall|a: int, b: int|
                            0 <= a < b < kept@.len() implies (#[trigger] kept@[a])@ != (
                            #[trigger] kept@[b])@ by {
                            assert(kept@[a] == before[a]);
                            if b < before.len() {
                                assert(kept@[b] == before[b]);
                            } else {
                                if kept@[a]@ == kept@[b]@ {
                                    assert(has_key(before, self.keys@[i as int]@));
                                }
                            }
                        }
                    }
                }
            }
            assert forall|n: (bool, Seq<char>)|
                #[trigger] has_key(kept@, n) <==> (n != key@ && has_key(
                    self.keys@.take(i + 1),
                    n,
                )) by {
                let prefix = self.keys@.take(i as int);
                let next = self.keys@.take(i + 1);
                assert(next =~= prefix.push(self.keys@[i as int]));
                if has_key(kept@, n) {
                    let j = choose|j: int| 0 <= j < kept@.len() && (#[trigger] kept@[j])@ == n;
                    if j < before.len() {
                        assert(kept@[j] == before[j]);
                        assert(has_key(before, n));
                        let k = choose|k: int| 0 <= k < prefix.len() && (#[trigger] prefix[k])@ == n;
                        assert(next[k] == prefix[k]);
                    } else {
                        assert(next[i as int]@ == n);
                    }
                }
                if n != key@ && has_key(next, n) {
                    let k = choose|k: int| 0 <= k < next.len() && (#[trigger] next[k])@ == n;
                    if k < i {
                        assert(prefix[k] == next[k]);
                        assert(has_key(prefix, n));
                        assert(has_key(before, n));
                        let j = choose|j: int| 0 <= j < before.len() && (#[trigger] before[j])@ == n;
                        assert(kept@[j] == before[j]);
                    } else {
                        assert(kept@[kept@.len() - 1]@ == n);
                    }
                }
            }
            i = i + 1;
        }
        assert(self.keys@.take(i as int) =~= self.keys@);
        self.keys = kept;
        assert forall|n: (bool, Seq<char>)| #[trigger] self@.contains(n) <==> old(self)@.remove(key@).contains(n) by {
            assert(self@.contains(n) == has_key(self.keys@, n));
            assert(old(self)@.contains(n) == has_key(old(self).keys@, n));
        }
        assert(self@ =~= old(self)@.remove(key@));
    }

    pub fn copy(&self) -> (r: Self)
        ensures
            r@ == self@,
            self.wf() ==> r.wf(),
    {
        let mut keys: Vec<Key> = Vec::new();
        let mut i: usize = 0;
        while i < self.keys.len()
            invariant
                i <= self.keys@.len(),
                keys@ == self.keys@.take(i as int),
            decreases self.keys@.len() - i,
        {
            keys.push(self.keys[i].clone());
            assert(keys@ =~= self.keys@.take(i + 1));
            i = i + 1;
        }
        assert(keys@ =~= self.keys@);
        let r = KeySet { keys };
        assert(r@ =~= self@);
        r
    }

    pub fn extend(&mut self, other: &KeySet)
        ensures
            final(self)@ == old(self)@.union(other@),
            old(self).wf() ==> final(self).wf(),
    {
        let mut i: usize = 0;
        while i < other.keys.len()
            invariant
                i <= other.keys@.len(),
                old(self).wf() ==> self.wf(),
                self@ == old(self)@.union(
                    Set::new(|n: (bool, Seq<char>)| exists|j: int| 0 <= j < i && (#[trigger] other.keys@[j])@ == n),
                ),
            decreases other.keys@.len() - i,
        {
            let ghost before = self@;
            self.insert(other.keys[i].clone());
            assert(self@ =~= old(self)@.union(
                Set::new(|n: (bool, Seq<char>)| exists|j: int| 0 <= j < i + 1 && (#[trigger] other.keys@[j])@ == n),
            )) by {
                assert forall|n: (bool, Seq<char>)| #[trigger] self@.contains(n) implies old(self)@.union(
                    Set::new(|n: (bool, Seq<char>)| exists|j: int| 0 <= j < i + 1 && (#[trigger] other.keys@[j])@ == n),
                ).contains(n) by {
                    if n == other.keys@[i as int]@ {
                    } else {
                        assert(before.contains(n));
                    }
                }
            }
            i = i + 1;
        }
        assert(self@ =~= old(self)@.union(other@));
    }
}

/// The borrows of one call: shared and mutable.
#[derive(Debug)]
pub struct BorrowScope {
    pub shared: KeySet,
    pub mutable: KeySet,
}

/// The mathematical value of a [`BorrowScope`].
pub struct ScopeView {
    pub shared: Set<(bool, Seq<char>)>,
    pub mutable: Set<(bool, Seq<char>)>,
}

impl View for BorrowScope {
    type V = ScopeView;

    open spec fn view(&self) -> ScopeView {
        ScopeView { shared: self.shared@, mutable: self.mutable@ }
    }
}

/// A borrow expression `&name` or `&mut name`.
#[derive(Debug)]
pub struct BorrowExpr {
    pub mutable: bool,
    pub key: Key,
    pub span: Range<usize>,
}


/// What the borrow checker of one body reads, as values.
pub struct CxView {
    pub sprite: Sprite,
    pub stage: Option<Sprite>,
    pub args: Option<Vec<Arg>>,
    pub return_type: Option<BaseTyView>,
}

/// What the borrow checker of one body reads.
pub struct Context<'a> {
    pub sprite: &'a Sprite,
    pub stage: Option<&'a Sprite>,
    pub args: Option<&'a Vec<Arg>>,
    pub return_type: Option<BaseTy>,
}

impl<'a> View for Context<'a> {
    type V = CxView;

    open spec fn view(&self) -> CxView {
        CxView {
            sprite: *self.sprite,
            stage: match self.stage {
                Some(s) => Some(*s),
                None => None,
            },
            args: match self.args {
                Some(a) => Some(*a),
                None => None,
            },
            return_type: match self.return_type {
                Some(t) => Some(t@),
                None => None,
            },
        }
    }
}

/// What borrow checking has found so far: moved keys, the borrows of the calls
/// being checked (innermost last), and the diagnostics.
pub struct BorrowState {
    pub moved: Set<(bool, Seq<char>)>,
    pub scopes: Seq<ScopeView>,
    pub diags: Seq<DiagnosticView>,
}

pub open spec fn add_diag(st: BorrowState, d: DiagnosticView) -> BorrowState {
    BorrowState { moved: st.moved, scopes: st.scopes, diags: st.diags.push(d) }
}

/// A type mismatch between two annotations at a span.
pub open spec fn mismatch_view(expected: TypeView, given: TypeView, span: (int, int)) -> DiagnosticView {
    DiagnosticView {
        kind: DiagnosticKindView::TypeMismatch { expected, given },
        start: span.0,
        end: span.1,
    }
}

/// A type-state error: the value is in state `state` where `expected` is required.
pub open spec fn state_error_view(expected: TypeView, state: Seq<char>, span: (int, int)) -> DiagnosticView {
    mismatch_view(expected, TypeView::Struct { name: state, start: span.0, end: span.1 }, span)
}

/// The index of the first of the first `n` parameters named `name`.
pub open spec fn param_index(ps: Seq<ParamView>, name: Seq<char>, n: int) -> Option<int>
    decreases n,
{
    if n <= 0 {
        None
    } else {
        match param_index(ps, name, n - 1) {
            Some(i) => Some(i),
            None => if ps[n - 1].name == name {
                Some(n - 1)
            } else {
                None
            },
        }
    }
}

pub proof fn lemma_param_index(ps: Seq<ParamView>, name: Seq<char>, n: int)
    requires
        0 <= n <= ps.len(),
    ensures
        match param_index(ps, name, n) {
            Some(i) => 0 <= i < n && ps[i].name == name,
            None => forall|j: int| 0 <= j < n ==> (#[trigger] ps[j]).name != name,
        },
    decreases n,
{
    if n > 0 {
        lemma_param_index(ps, name, n - 1);
    }
}

/// The parameter of the body named `name`.
pub open spec fn arg_param_spec(cx: CxView, name: Seq<char>) -> Option<ParamView> {
    match cx.args {
        Some(args) => {
            let ps = signature_spec(args@);
            match param_index(ps, name, ps.len() as int) {
                Some(i) => Some(ps[i]),
                None => None,
            }
        },
        None => None,
    }
}

/// The type of a parameter: its type, or the type it refers to; dynamic if none.
pub open spec fn arg_type_spec(cx: CxView, name: Seq<char>) -> BaseTyView {
    match arg_param_spec(cx, name) {
        Some(p) => match p.ty {
            ParamTyView::Value(t) => t,
            ParamTyView::Ref { inner, .. } => inner,
        },
        None => BaseTyView::Dynamic,
    }
}

pub open spec fn arg_is_ref_spec(cx: CxView, name: Seq<char>) -> bool {
    match arg_param_spec(cx, name) {
        Some(p) => p.ty is Ref,
        None => false,
    }
}

pub open spec fn arg_ref_is_mutable_spec(cx: CxView, name: Seq<char>) -> Option<bool> {
    match arg_param_spec(cx, name) {
        Some(p) => match p.ty {
            ParamTyView::Ref { mutable, .. } => Some(mutable),
            _ => None,
        },
        None => None,
    }
}

/// The variable named `name` among the locals of the first `n` routines.
pub open spec fn locals_find(entries: Seq<(String, NameMap<Var>)>, name: Seq<char>, n: int) -> Option<Var>
    decreases n,
{
    if n <= 0 || n > entries.len() {
        None
    } else {
        match locals_find(entries, name, n - 1) {
            Some(v) => Some(v),
            None => entries[n - 1].1.lookup(name),
        }
    }
}

/// The type of a variable: a local of any procedure, else of any function, else a
/// variable of the sprite, else of the stage; dynamic if none.
pub open spec fn var_type_spec(cx: CxView, name: Seq<char>) -> BaseTyView {
    let in_procs = locals_find(
        cx.sprite.proc_locals.entries@,
        name,
        cx.sprite.proc_locals.entries@.len() as int,
    );
    let in_funcs = locals_find(
        cx.sprite.func_locals.entries@,
        name,
        cx.sprite.func_locals.entries@.len() as int,
    );
    let found = match in_procs {
        Some(v) => Some(v),
        None => match in_funcs {
            Some(v) => Some(v),
            None => match cx.sprite.vars.lookup(name) {
                Some(v) => Some(v),
                None => match cx.stage {
                    Some(stage) => stage.vars.lookup(name),
                    None => None,
                },
            },
        },
    };
    match found {
        Some(v) => base_of_type(v.type_@),
        None => BaseTyView::Dynamic,
    }
}

/// The element type of a list of the sprite, else of the stage; dynamic if none.
pub open spec fn list_type_spec(cx: CxView, name: Seq<char>) -> BaseTyView {
    match cx.sprite.lists.lookup(name) {
        Some(list) => base_of_type(list.type_@),
        None => match cx.stage {
            Some(stage) => match stage.lists.lookup(name) {
                Some(list) => base_of_type(list.type_@),
                None => BaseTyView::Dynamic,
            },
            None => BaseTyView::Dynamic,
        },
    }
}

pub open spec fn key_type_spec(cx: CxView, k: (bool, Seq<char>)) -> BaseTyView {
    if k.0 {
        arg_type_spec(cx, k.1)
    } else {
        var_type_spec(cx, k.1)
    }
}

pub open spec fn borrowed_mutably_spec(scopes: Seq<ScopeView>, k: (bool, Seq<char>)) -> bool {
    exists|i: int| 0 <= i < scopes.len() && (#[trigger] scopes[i]).mutable.contains(k)
}

pub open spec fn borrowed_shared_spec(scopes: Seq<ScopeView>, k: (bool, Seq<char>)) -> bool {
    exists|i: int| 0 <= i < scopes.len() && (#[trigger] scopes[i]).shared.contains(k)
}

pub open spec fn borrowed_any_spec(scopes: Seq<ScopeView>, k: (bool, Seq<char>)) -> bool {
    borrowed_mutably_spec(scopes, k) || borrowed_shared_spec(scopes, k)
}

/// The borrow an expression spells: `&name`/`&mut name` of a variable or
/// parameter, with its span.
pub open spec fn borrow_expr_spec(e: Expr) -> Option<(bool, (bool, Seq<char>), (int, int))> {
    match e {
        Expr::Name(Name::Name { name, span }) => match decode_borrow_name_spec(name@) {
            Some((m, l)) => Some((m, (false, l), (span.start as int, span.end as int))),
            None => None,
        },
        Expr::Arg(Name::Name { name, span }) => match decode_borrow_name_spec(name@) {
            Some((m, l)) => Some((m, (true, l), (span.start as int, span.end as int))),
            None => None,
        },
        _ => None,
    }
}

/// The variable or parameter an expression names, when it is a plain name and
/// no borrow.
pub open spec fn move_source_spec(e: Expr) -> Option<(bool, Seq<char>)> {
    match e {
        Expr::Name(Name::Name { name, .. }) => if decode_borrow_name_spec(name@) is None {
            Some((false, name@))
        } else {
            None
        },
        Expr::Arg(Name::Name { name, .. }) => if decode_borrow_name_spec(name@) is None {
            Some((true, name@))
        } else {
            None
        },
        _ => None,
    }
}

/// Reading a key reports it if a call is borrowing it mutably.
pub open spec fn check_read_spec(cx: CxView, st: BorrowState, k: (bool, Seq<char>), span: (int, int)) -> BorrowState {
    if borrowed_mutably_spec(st.scopes, k) {
        let t = key_type_spec(cx, k);
        add_diag(
            st,
            state_error_view(base_to_type(t, span.0, span.1), "mutably borrowed "@ + base_name(t), span),
        )
    } else {
        st
    }
}

/// Consuming `e` where `expected` is required moves what it names, when the type
/// is owned: not a reference parameter, and not while borrowed.
pub open spec fn mark_move_spec(
    cx: CxView,
    st: BorrowState,
    e: Expr,
    expected: BaseTyView,
    destination: Option<Name>,
) -> BorrowState {
    if !base_owned(expected) {
        st
    } else {
        match move_source_spec(e) {
            None => st,
            Some(k) => {
                let span = e.spec_span();
                if destination matches Some(d) && !k.0 && d.spec_basename() == k.1 {
                    st
                } else if k.0 && arg_is_ref_spec(cx, k.1) {
                    add_diag(
                        st,
                        state_error_view(
                            base_to_type(expected, span.0, span.1),
                            "borrowed parameter "@ + base_name(expected),
                            span,
                        ),
                    )
                } else if borrowed_any_spec(st.scopes, k) {
                    add_diag(
                        st,
                        state_error_view(
                            base_to_type(expected, span.0, span.1),
                            "borrowed "@ + base_name(expected),
                            span,
                        ),
                    )
                } else {
                    BorrowState { moved: st.moved.insert(k), scopes: st.scopes, diags: st.diags }
                }
            },
        }
    }
}

/// The innermost call's scope with one more borrow.
pub open spec fn add_borrow(scopes: Seq<ScopeView>, k: (bool, Seq<char>), mutable: bool) -> Seq<ScopeView> {
    if scopes.len() == 0 {
        scopes
    } else {
        let last = scopes.last();
        scopes.update(
            scopes.len() - 1,
            if mutable {
                ScopeView { shared: last.shared, mutable: last.mutable.insert(k) }
            } else {
                ScopeView { shared: last.shared.insert(k), mutable: last.mutable }
            },
        )
    }
}

/// The signature of a function of the sprite, empty if there is none.
pub open spec fn func_signature_spec(cx: CxView, name: Seq<char>) -> Seq<ParamView> {
    match cx.sprite.func_args.lookup(name) {
        Some(args) => signature_spec(args@),
        None => seq![],
    }
}

/// The signature of a procedure of the sprite, empty if there is none.
pub open spec fn proc_signature_spec(cx: CxView, name: Seq<char>) -> Seq<ParamView> {
    match cx.sprite.proc_args.lookup(name) {
        Some(args) => signature_spec(args@),
        None => seq![],
    }
}

/// Walks an expression: a borrow outside a reference argument is an error, a
/// read of a mutably borrowed value is an error, and calls are checked.
pub open spec fn walk_spec(cx: CxView, st: BorrowState, e: Expr) -> BorrowState
    decreases e, 0int,
{
    match borrow_expr_spec(e) {
        Some((m, k, span)) => {
            let t = key_type_spec(cx, k);
            add_diag(
                st,
                state_error_view(
                    base_to_type(t, span.0, span.1),
                    ref_name(m, t) + " outside reference argument"@,
                    span,
                ),
            )
        },
        None => match e {
            Expr::Value { .. } => st,
            Expr::Name(name) => check_read_spec(cx, st, (false, name.spec_basename()), name.spec_span()),
            Expr::Arg(name) => check_read_spec(cx, st, (true, name.spec_basename()), name.spec_span()),
            Expr::Dot { expr, .. } => walk_spec(cx, st, *expr),
            Expr::Property { object, .. } => walk_spec(cx, st, *object),
            Expr::Repr { args, .. } => walks_spec(cx, st, args@, args@.len() as int),
            Expr::FuncCall { name, args, kwargs, .. } => {
                let sig = func_signature_spec(cx, name@);
                let p = min_len(sig.len(), args@.len());
                let st1 = BorrowState {
                    moved: st.moved,
                    scopes: st.scopes.push(ScopeView { shared: Set::empty(), mutable: Set::empty() }),
                    diags: st.diags,
                };
                let st2 = positional_spec(cx, st1, sig, args@, p);
                let st3 = keyword_spec(cx, st2, sig, kwargs@, p, sig.len() as int);
                BorrowState { moved: st3.moved, scopes: st3.scopes.drop_last(), diags: st3.diags }
            },
            Expr::UnOp { opr, .. } => walk_spec(cx, st, *opr),
            Expr::BinOp { left: lhs, right: rhs, .. } => walk_spec(cx, walk_spec(cx, st, *lhs), *rhs),
            Expr::StructLiteral { fields, .. } => walk_fields_spec(cx, st, fields@, fields@.len() as int),
        },
    }
}

/// Walks the first `n` expressions in order.
pub open spec fn walks_spec(cx: CxView, st: BorrowState, es: Seq<Expr>, n: int) -> BorrowState
    decreases es, n,
{
    if n <= 0 || n > es.len() {
        st
    } else {
        walk_spec(cx, walks_spec(cx, st, es, n - 1), es[n - 1])
    }
}

/// Walks the values of the first `n` struct literal fields in order.
pub open spec fn walk_fields_spec(cx: CxView, st: BorrowState, fs: Seq<StructLiteralField>, n: int) -> BorrowState
    decreases fs, n,
{
    if n <= 0 || n > fs.len() {
        st
    } else {
        walk_spec(cx, walk_fields_spec(cx, st, fs, n - 1), fs[n - 1].value)
    }
}

/// Checks an argument passed by value: a borrow is a mismatch; otherwise it is
/// walked and moved.
pub open spec fn value_arg_spec(cx: CxView, st: BorrowState, expected: BaseTyView, e: Expr) -> BorrowState
    decreases e, 1int,
{
    match borrow_expr_spec(e) {
        Some((m, k, span)) => add_diag(
            st,
            mismatch_view(
                base_to_type(expected, span.0, span.1),
                TypeView::Struct { name: ref_name(m, key_type_spec(cx, k)), start: span.0, end: span.1 },
                span,
            ),
        ),
        None => mark_move_spec(cx, walk_spec(cx, st, e), e, expected, None),
    }
}

/// Checks an argument for a reference parameter: it must be a borrow of a
/// matching type and mutability, of a value neither moved nor in conflict with
/// the borrows of the call; the borrow then joins the call's scope.
pub open spec fn ref_arg_spec(
    cx: CxView,
    st: BorrowState,
    expected_mutable: bool,
    inner: BaseTyView,
    e: Expr,
) -> BorrowState
    decreases e, 1int,
{
    match borrow_expr_spec(e) {
        None => {
            let span = e.spec_span();
            let given = match move_source_spec(e) {
                Some(k) => key_type_spec(cx, k),
                None => BaseTyView::Dynamic,
            };
            walk_spec(
                cx,
                add_diag(
                    st,
                    mismatch_view(
                        TypeView::Struct { name: ref_name(expected_mutable, inner), start: span.0, end: span.1 },
                        base_to_type(given, span.0, span.1),
                        span,
                    ),
                ),
                e,
            )
        },
        Some((m, k, span)) => {
            let given = key_type_spec(cx, k);
            let expected = TypeView::Struct {
                name: ref_name(expected_mutable, inner),
                start: span.0,
                end: span.1,
            };
            if !base_accepts(inner, given) || (expected_mutable && !m) {
                add_diag(
                    st,
                    mismatch_view(
                        expected,
                        TypeView::Struct { name: ref_name(m, given), start: span.0, end: span.1 },
                        span,
                    ),
                )
            } else if st.moved.contains(k) {
                add_diag(st, state_error_view(expected, "moved "@ + base_name(given), span))
            } else if k.0 && m && arg_ref_is_mutable_spec(cx, k.1) == Some(false) {
                add_diag(
                    st,
                    state_error_view(expected, "immutably borrowed parameter "@ + base_name(given), span),
                )
            } else if m {
                if borrowed_any_spec(st.scopes, k) {
                    add_diag(st, state_error_view(expected, "already borrowed "@ + base_name(given), span))
                } else {
                    BorrowState { moved: st.moved, scopes: add_borrow(st.scopes, k, true), diags: st.diags }
                }
            } else {
                if borrowed_mutably_spec(st.scopes, k) {
                    add_diag(st, state_error_view(expected, "mutably borrowed "@ + base_name(given), span))
                } else {
                    BorrowState { moved: st.moved, scopes: add_borrow(st.scopes, k, false), diags: st.diags }
                }
            }
        },
    }
}

/// Checks an argument against its parameter.
pub open spec fn param_arg_spec(cx: CxView, st: BorrowState, p: ParamView, e: Expr) -> BorrowState
    decreases e, 2int,
{
    match p.ty {
        ParamTyView::Value(t) => value_arg_spec(cx, st, t, e),
        ParamTyView::Ref { mutable, inner } => ref_arg_spec(cx, st, mutable, inner, e),
    }
}

/// Checks the first `n` positional arguments.
pub open spec fn positional_spec(
    cx: CxView,
    st: BorrowState,
    sig: Seq<ParamView>,
    args: Seq<Expr>,
    n: int,
) -> BorrowState
    decreases args, n,
{
    if n <= 0 || n > args.len() || n > sig.len() {
        st
    } else {
        param_arg_spec(cx, positional_spec(cx, st, sig, args, n - 1), sig[n - 1], args[n - 1])
    }
}

/// Checks the keyword arguments of the parameters from `start` up to `n`.
pub open spec fn keyword_spec(
    cx: CxView,
    st: BorrowState,
    sig: Seq<ParamView>,
    kwargs: Seq<Kwarg>,
    start: int,
    n: int,
) -> BorrowState
    decreases kwargs, n,
{
    if n <= 0 || n <= start || n > sig.len() {
        st
    } else {
        let prev = keyword_spec(cx, st, sig, kwargs, start, n - 1);
        match kwarg_index(kwargs, sig[n - 1].name, kwargs.len() as int) {
            Some(i) => {
                proof {
                    lemma_kwarg_index(kwargs, sig[n - 1].name, kwargs.len() as int);
                }
                param_arg_spec(cx, prev, sig[n - 1], kwargs[i].value)
            },
            None => prev,
        }
    }
}


/// The views of the borrow scopes.
pub open spec fn scopes_view(s: Seq<BorrowScope>) -> Seq<ScopeView> {
    s.map_values(|b: BorrowScope| b@)
}

/// Checks ownership and borrows in one procedure, function or event body.
pub struct Checker<'a> {
    pub cx: Context<'a>,
    pub moved: KeySet,
    pub borrow_scopes: Vec<BorrowScope>,
    pub diagnostics: Vec<Diagnostic>,
}

pub proof fn lemma_locals_find(entries: Seq<(String, NameMap<Var>)>, name: Seq<char>, n: int)
    requires
        0 <= n <= entries.len(),
    ensures
        locals_find(entries, name, n) is None ==> forall|j: int|
            0 <= j < n ==> (#[trigger] entries[j]).1.lookup(name) is None,
    decreases n,
{
    if n > 0 {
        lemma_locals_find(entries, name, n - 1);
    }
}

pub proof fn lemma_locals_find_stable(entries: Seq<(String, NameMap<Var>)>, name: Seq<char>, i: int, n: int)
    requires
        0 <= i < n <= entries.len(),
        locals_find(entries, name, i) is None,
        entries[i].1.lookup(name) is Some,
    ensures
        locals_find(entries, name, n) == entries[i].1.lookup(name),
    decreases n,
{
    if n > i + 1 {
        lemma_locals_find_stable(entries, name, i, n - 1);
    }
}

/// The variable named `name` among the locals of any routine of the table.
fn find_local<'b>(entries: &'b Vec<(String, NameMap<Var>)>, name: &str) -> (r: Option<&'b Var>)
    ensures
        match locals_find(entries@, name@, entries@.len() as int) {
            Some(v) => r == Some(&v),
            None => r is None,
        },
{
    let mut i: usize = 0;
    while i < entries.len()
        invariant
            i <= entries@.len(),
            locals_find(entries@, name@, i as int) is None,
        decreases entries@.len() - i,
    {
        if let Some(var) = entries[i].1.get(name) {
            proof {
                lemma_locals_find_stable(entries@, name@, i as int, entries@.len() as int);
            }
            return Some(var);
        }
        i = i + 1;
    }
    None
}

impl<'a> Checker<'a> {
    /// What the checker has found so far.
    pub open spec fn state(&self) -> BorrowState {
        BorrowState {
            moved: self.moved@,
            scopes: scopes_view(self.borrow_scopes@),
            diags: diagnostics_view(self.diagnostics@),
        }
    }

    fn arg_param(&self, logical_name: &str) -> (r: Option<Param>)
        ensures
            match arg_param_spec(self.cx@, logical_name@) {
                Some(pv) => r matches Some(p) && p@ == pv,
                None => r is None,
            },
    {
        match self.cx.args {
            Some(args) => {
                let ghost ps = signature_spec(args@);
                let mut i: usize = 0;
                while i < args.len()
                    invariant
                        i <= args@.len(),
                        self.cx.args == Some(args),
                        ps == signature_spec(args@),
                        param_index(ps, logical_name@, i as int) is None,
                    decreases args@.len() - i,
                {
                    let p = param(&args[i]);
                    if same_text(p.name.as_str(), logical_name) {
                        proof {
                            lemma_param_index_first(ps, logical_name@, i as int, ps.len() as int);
                        }
                        return Some(p);
                    }
                    i = i + 1;
                }
                None
            },
            None => None,
        }
    }

    fn arg_type(&self, logical_name: &str) -> (r: BaseTy)
        ensures
            r@ == arg_type_spec(self.cx@, logical_name@),
    {
        match self.arg_param(logical_name) {
            Some(p) => match p.type_ {
                ParamTy::Value(t) => t,
                ParamTy::Ref(spec) => spec.inner,
            },
            None => BaseTy::Dynamic,
        }
    }

    fn arg_is_ref(&self, logical_name: &str) -> (r: bool)
        ensures
            r == arg_is_ref_spec(self.cx@, logical_name@),
    {
        match self.arg_param(logical_name) {
            Some(p) => match p.type_ {
                ParamTy::Ref(_) => true,
                _ => false,
            },
            None => false,
        }
    }

    fn arg_ref_is_mutable(&self, logical_name: &str) -> (r: Option<bool>)
        ensures
            r == arg_ref_is_mutable_spec(self.cx@, logical_name@),
    {
        match self.arg_param(logical_name) {
            Some(p) => match p.type_ {
                ParamTy::Ref(spec) => Some(spec.mutable),
                _ => None,
            },
            None => None,
        }
    }

    fn var_type(&self, name: &str) -> (r: BaseTy)
        ensures
            r@ == var_type_spec(self.cx@, name@),
    {
        let sprite = self.cx.sprite;
        if let Some(var) = find_local(&sprite.proc_locals.entries, name) {
            return BaseTy::from_ast(&var.type_);
        }
        if let Some(var) = find_local(&sprite.func_locals.entries, name) {
            return BaseTy::from_ast(&var.type_);
        }
        if let Some(var) = sprite.vars.get(name) {
            return BaseTy::from_ast(&var.type_);
        }
        if let Some(stage) = self.cx.stage {
            if let Some(var) = stage.vars.get(name) {
                return BaseTy::from_ast(&var.type_);
            }
        }
        BaseTy::Dynamic
    }

    fn list_type(&self, name: &str) -> (r: BaseTy)
        ensures
            r@ == list_type_spec(self.cx@, name@),
    {
        if let Some(list) = self.cx.sprite.lists.get(name) {
            return BaseTy::from_ast(&list.type_);
        }
        if let Some(stage) = self.cx.stage {
            if let Some(list) = stage.lists.get(name) {
                return BaseTy::from_ast(&list.type_);
            }
        }
        BaseTy::Dynamic
    }

    fn key_type(&self, key: &Key) -> (r: BaseTy)
        ensures
            r@ == key_type_spec(self.cx@, key@),
    {
        if key.is_arg {
            self.arg_type(key.name.as_str())
        } else {
            self.var_type(key.name.as_str())
        }
    }

    fn borrowed_mutably(&self, key: &Key) -> (r: bool)
        ensures
            r == borrowed_mutably_spec(scopes_view(self.borrow_scopes@), key@),
    {
        let mut i: usize = 0;
        while i < self.borrow_scopes.len()
            invariant
                i <= self.borrow_scopes@.len(),
                forall|j: int|
                    0 <= j < i ==> !(#[trigger] scopes_view(self.borrow_scopes@)[j]).mutable.contains(
                        key@,
                    ),
            decreases self.borrow_scopes@.len() - i,
        {
            if self.borrow_scopes[i].mutable.contains(key) {
                assert(scopes_view(self.borrow_scopes@)[i as int].mutable.contains(key@));
                return true;
            }
            i = i + 1;
        }
        false
    }

    fn borrowed_shared(&self, key: &Key) -> (r: bool)
        ensures
            r == borrowed_shared_spec(scopes_view(self.borrow_scopes@), key@),
    {
        let mut i: usize = 0;
        while i < self.borrow_scopes.len()
            invariant
                i <= self.borrow_scopes@.len(),
                forall|j: int|
                    0 <= j < i ==> !(#[trigger] scopes_view(self.borrow_scopes@)[j]).shared.contains(
                        key@,
                    ),
            decreases self.borrow_scopes@.len() - i,
        {
            if self.borrow_scopes[i].shared.contains(key) {
                assert(scopes_view(self.borrow_scopes@)[i as int].shared.contains(key@));
                return true;
            }
            i = i + 1;
        }
        false
    }

    fn borrowed_any(&self, key: &Key) -> (r: bool)
        ensures
            r == borrowed_any_spec(scopes_view(self.borrow_scopes@), key@),
    {
        self.borrowed_mutably(key) || self.borrowed_shared(key)
    }
}

pub proof fn lemma_param_index_first(ps: Seq<ParamView>, name: Seq<char>, i: int, n: int)
    requires
        0 <= i < n <= ps.len(),
        param_index(ps, name, i) is None,
        ps[i].name == name,
    ensures
        param_index(ps, name, n) == Some(i),
    decreases n,
{
    if n > i + 1 {
        lemma_param_index_first(ps, name, i, n - 1);
    }
}


/// The borrow an expression spells, if any.
fn borrow_expr(expr: &Expr) -> (r: Option<BorrowExpr>)
    ensures
        match borrow_expr_spec(*expr) {
            Some((m, k, sp)) => r matches Some(b) && b.mutable == m && b.key@ == k && b.span.start
                == sp.0 && b.span.end == sp.1,
            None => r is None,
        },
{
    match expr {
        Expr::Name(Name::Name { name, span }) => match decode_borrow_name(name.as_str()) {
            Some((m, l)) => Some(BorrowExpr { mutable: m, key: Key::var(l), span: span.start..span.end }),
            None => None,
        },
        Expr::Arg(Name::Name { name, span }) => match decode_borrow_name(name.as_str()) {
            Some((m, l)) => Some(BorrowExpr { mutable: m, key: Key::arg(l), span: span.start..span.end }),
            None => None,
        },
        _ => None,
    }
}

/// The variable or parameter a plain name expression consumes, if any.
fn move_source(expr: &Expr) -> (r: Option<Key>)
    ensures
        match move_source_spec(*expr) {
            Some(k) => r matches Some(key) && key@ == k,
            None => r is None,
        },
{
    match expr {
        Expr::Name(Name::Name { name, .. }) => match decode_borrow_name(name.as_str()) {
            Some(_) => None,
            None => Some(Key::var(name.clone())),
        },
        Expr::Arg(Name::Name { name, .. }) => match decode_borrow_name(name.as_str()) {
            Some(_) => None,
            None => Some(Key::arg(name.clone())),
        },
        _ => None,
    }
}

impl<'a> Checker<'a> {
    fn report(&mut self, kind: DiagnosticKind, span: Range<usize>)
        ensures
            final(self).cx == old(self).cx,
            final(self).borrow_scopes@ == old(self).borrow_scopes@,
            final(self).state() == add_diag(
                old(self).state(),
                DiagnosticView { kind: kind@, start: span.start as int, end: span.end as int },
            ),
    {
        let d = Diagnostic { kind, span };
        self.diagnostics.push(d);
        assert(diagnostics_view(self.diagnostics@) =~= diagnostics_view(old(self).diagnostics@).push(d@));
    }

    fn state_error(&mut self, expected: Type, state: String, span: Range<usize>)
        ensures
            final(self).cx == old(self).cx,
            final(self).borrow_scopes@ == old(self).borrow_scopes@,
            final(self).state() == add_diag(
                old(self).state(),
                state_error_view(expected@, state@, (span.start as int, span.end as int)),
            ),
    {
        let given = Type::Struct { name: state, span: span.start..span.end };
        self.report(DiagnosticKind::TypeMismatch { expected, given }, span);
    }

    fn check_read(&mut self, key: &Key, span: Range<usize>)
        ensures
            final(self).cx == old(self).cx,
            final(self).borrow_scopes@ == old(self).borrow_scopes@,
            final(self).state() == check_read_spec(
                old(self).cx@,
                old(self).state(),
                key@,
                (span.start as int, span.end as int),
            ),
    {
        if self.borrowed_mutably(key) {
            let t = self.key_type(key);
            let expected = t.to_ast(span.start..span.end);
            let state = String::from_str("mutably borrowed ").concat(t.display().as_str());
            self.state_error(expected, state, span);
        }
    }

    /// Records a borrow in the innermost call's scope.
    fn add_borrow(&mut self, key: Key, mutable: bool)
        ensures
            final(self).cx == old(self).cx,
            final(self).borrow_scopes@.len() == old(self).borrow_scopes@.len(),
            final(self).state() == (BorrowState {
                moved: old(self).state().moved,
                scopes: add_borrow(old(self).state().scopes, key@, mutable),
                diags: old(self).state().diags,
            }),
    {
        let ghost k = key@;
        let mut scope = match self.borrow_scopes.pop() {
            Some(s) => s,
            None => {
                assert(self.state() =~= BorrowState {
                    moved: old(self).state().moved,
                    scopes: add_borrow(old(self).state().scopes, k, mutable),
                    diags: old(self).state().diags,
                });
                return;
            },
        };
        if mutable {
            scope.mutable.insert(key);
        } else {
            scope.shared.insert(key);
        }
        self.borrow_scopes.push(scope);
        assert(scopes_view(self.borrow_scopes@) =~= add_borrow(
            scopes_view(old(self).borrow_scopes@),
            k,
            mutable,
        ));
    }

    /// Ends the innermost call's scope.
    fn pop_scope(&mut self)
        requires
            old(self).borrow_scopes@.len() > 0,
        ensures
            final(self).cx == old(self).cx,
            final(self).borrow_scopes@.len() == old(self).borrow_scopes@.len() - 1,
            final(self).state() == (BorrowState {
                moved: old(self).state().moved,
                scopes: old(self).state().scopes.drop_last(),
                diags: old(self).state().diags,
            }),
    {
        self.borrow_scopes.pop();
        assert(scopes_view(self.borrow_scopes@) =~= scopes_view(old(self).borrow_scopes@).drop_last());
    }

    /// Opens a scope for the borrows of a call.
    fn push_scope(&mut self)
        ensures
            final(self).cx == old(self).cx,
            final(self).borrow_scopes@.len() == old(self).borrow_scopes@.len() + 1,
            final(self).state() == (BorrowState {
                moved: old(self).state().moved,
                scopes: old(self).state().scopes.push(
                    ScopeView { shared: Set::empty(), mutable: Set::empty() },
                ),
                diags: old(self).state().diags,
            }),
    {
        self.borrow_scopes.push(BorrowScope { shared: KeySet::new(), mutable: KeySet::new() });
        assert(scopes_view(self.borrow_scopes@) =~= scopes_view(old(self).borrow_scopes@).push(
            ScopeView { shared: Set::empty(), mutable: Set::empty() },
        ));
    }

    fn mark_move(&mut self, expr: &Expr, expected: &BaseTy, destination: Option<&Name>)
        ensures
            final(self).cx == old(self).cx,
            final(self).borrow_scopes@ == old(self).borrow_scopes@,
            final(self).state() == mark_move_spec(
                old(self).cx@,
                old(self).state(),
                *expr,
                expected@,
                match destination {
                    Some(d) => Some(*d),
                    None => None,
                },
            ),
    {
        if !expected.owned() {
            return;
        }
        let key = match move_source(expr) {
            Some(k) => k,
            None => {
                return;
            },
        };
        if let Some(d) = destination {
            if !key.is_arg && same_text(d.basename().as_str(), key.name.as_str()) {
                return;
            }
        }
        let span = expr.span();
        if key.is_arg && self.arg_is_ref(key.name.as_str()) {
            let t = expected.to_ast(span.start..span.end);
            let state = String::from_str("borrowed parameter ").concat(expected.display().as_str());
            self.state_error(t, state, span);
            return;
        }
        if self.borrowed_any(&key) {
            let t = expected.to_ast(span.start..span.end);
            let state = String::from_str("borrowed ").concat(expected.display().as_str());
            self.state_error(t, state, span);
            return;
        }
        self.moved.insert(key);
    }
}


impl<'a> Checker<'a> {
    fn walk_expr(&mut self, expr: &Expr)
        ensures
            final(self).cx == old(self).cx,
            final(self).borrow_scopes@.len() == old(self).borrow_scopes@.len(),
            final(self).state() == walk_spec(old(self).cx@, old(self).state(), *expr),
        decreases expr, 0int,
    {
        if let Some(borrow) = borrow_expr(expr) {
            let t = self.key_type(&borrow.key);
            let expected = t.to_ast(borrow.span.start..borrow.span.end);
            let prefix = if borrow.mutable {
                String::from_str("&mut ")
            } else {
                String::from_str("&")
            };
            let state = prefix.concat(t.display().as_str()).concat(" outside reference argument");
            self.state_error(expected, state, borrow.span);
            return;
        }
        match expr {
            Expr::Value { .. } => {},
            Expr::Name(name) => {
                let key = Key::var(name.basename().clone());
                self.check_read(&key, name.span());
            },
            Expr::Arg(name) => {
                let key = Key::arg(name.basename().clone());
                self.check_read(&key, name.span());
            },
            Expr::Dot { expr, .. } => self.walk_expr(expr),
            Expr::Property { object, .. } => self.walk_expr(object),
            Expr::Repr { args, .. } => self.walks(args),
            Expr::FuncCall { name, args, kwargs, .. } => {
                let sprite = self.cx.sprite;
                let sig = match sprite.func_args.get(name.as_str()) {
                    Some(params) => signature(params),
                    None => Vec::new(),
                };
                assert(params_view(sig@) =~= func_signature_spec(self.cx@, name@));
                let n = if sig.len() < args.len() {
                    sig.len()
                } else {
                    args.len()
                };
                self.push_scope();
                self.positional(&sig, args);
                self.keywords(&sig, kwargs, n);
                self.pop_scope();
            },
            Expr::UnOp { opr, .. } => self.walk_expr(opr),
            Expr::BinOp { left: lhs, right: rhs, .. } => {
                self.walk_expr(lhs);
                self.walk_expr(rhs);
            },
            Expr::StructLiteral { fields, .. } => self.walk_fields(fields),
        }
    }

    fn walks(&mut self, es: &Vec<Expr>)
        ensures
            final(self).cx == old(self).cx,
            final(self).borrow_scopes@.len() == old(self).borrow_scopes@.len(),
            final(self).state() == walks_spec(old(self).cx@, old(self).state(), es@, es@.len() as int),
        decreases es, 0int,
    {
        let mut i: usize = 0;
        while i < es.len()
            invariant
                i <= es@.len(),
                self.cx == old(self).cx,
                self.borrow_scopes@.len() == old(self).borrow_scopes@.len(),
                self.state() == walks_spec(old(self).cx@, old(self).state(), es@, i as int),
            decreases es@.len() - i,
        {
            self.walk_expr(&es[i]);
            i = i + 1;
        }
    }

    fn walk_fields(&mut self, fs: &Vec<StructLiteralField>)
        ensures
            final(self).cx == old(self).cx,
            final(self).borrow_scopes@.len() == old(self).borrow_scopes@.len(),
            final(self).state() == walk_fields_spec(old(self).cx@, old(self).state(), fs@, fs@.len() as int),
        decreases fs, 0int,
    {
        let mut i: usize = 0;
        while i < fs.len()
            invariant
                i <= fs@.len(),
                self.cx == old(self).cx,
                self.borrow_scopes@.len() == old(self).borrow_scopes@.len(),
                self.state() == walk_fields_spec(old(self).cx@, old(self).state(), fs@, i as int),
            decreases fs@.len() - i,
        {
            self.walk_expr(&fs[i].value);
            i = i + 1;
        }
    }

    fn check_value_arg(&mut self, expected: &BaseTy, expr: &Expr)
        ensures
            final(self).cx == old(self).cx,
            final(self).borrow_scopes@.len() == old(self).borrow_scopes@.len(),
            final(self).state() == value_arg_spec(old(self).cx@, old(self).state(), expected@, *expr),
        decreases expr, 1int,
    {
        if let Some(borrow) = borrow_expr(expr) {
            let given = self.key_type(&borrow.key);
            let given_ref = RefSpec { mutable: borrow.mutable, inner: given, logical_name: borrow.key.name };
            let kind = DiagnosticKind::TypeMismatch {
                expected: expected.to_ast(borrow.span.start..borrow.span.end),
                given: given_ref.to_ast(borrow.span.start..borrow.span.end),
            };
            self.report(kind, borrow.span);
            return;
        }
        self.walk_expr(expr);
        self.mark_move(expr, expected, None);
    }

    fn check_ref_arg(&mut self, expected: &RefSpec, expr: &Expr)
        ensures
            final(self).cx == old(self).cx,
            final(self).borrow_scopes@.len() == old(self).borrow_scopes@.len(),
            final(self).state() == ref_arg_spec(
                old(self).cx@,
                old(self).state(),
                expected.mutable,
                expected.inner@,
                *expr,
            ),
        decreases expr, 1int,
    {
        let borrow = match borrow_expr(expr) {
            Some(b) => b,
            None => {
                let given = match move_source(expr) {
                    Some(k) => self.key_type(&k),
                    None => BaseTy::Dynamic,
                };
                let span = expr.span();
                let kind = DiagnosticKind::TypeMismatch {
                    expected: expected.to_ast(span.start..span.end),
                    given: given.to_ast(span.start..span.end),
                };
                self.report(kind, span);
                self.walk_expr(expr);
                return;
            },
        };
        let span = borrow.span;
        let given = self.key_type(&borrow.key);
        if !expected.inner.accepts(&given) || (expected.mutable && !borrow.mutable) {
            let given_ref = RefSpec {
                mutable: borrow.mutable,
                inner: given,
                logical_name: borrow.key.name.clone(),
            };
            let kind = DiagnosticKind::TypeMismatch {
                expected: expected.to_ast(span.start..span.end),
                given: given_ref.to_ast(span.start..span.end),
            };
            self.report(kind, span);
            return;
        }
        if self.moved.contains(&borrow.key) {
            let state = String::from_str("moved ").concat(given.display().as_str());
            self.state_error(expected.to_ast(span.start..span.end), state, span);
            return;
        }
        if borrow.key.is_arg && borrow.mutable {
            if let Some(false) = self.arg_ref_is_mutable(borrow.key.name.as_str()) {
                let state = String::from_str("immutably borrowed parameter ").concat(
                    given.display().as_str(),
                );
                self.state_error(expected.to_ast(span.start..span.end), state, span);
                return;
            }
        }
        if borrow.mutable {
            if self.borrowed_any(&borrow.key) {
                let state = String::from_str("already borrowed ").concat(given.display().as_str());
                self.state_error(expected.to_ast(span.start..span.end), state, span);
                return;
            }
            self.add_borrow(borrow.key, true);
        } else {
            if self.borrowed_mutably(&borrow.key) {
                let state = String::from_str("mutably borrowed ").concat(given.display().as_str());
                self.state_error(expected.to_ast(span.start..span.end), state, span);
                return;
            }
            self.add_borrow(borrow.key, false);
        }
    }

    fn check_param(&mut self, param: &Param, expr: &Expr)
        ensures
            final(self).cx == old(self).cx,
            final(self).borrow_scopes@.len() == old(self).borrow_scopes@.len(),
            final(self).state() == param_arg_spec(old(self).cx@, old(self).state(), param@, *expr),
        decreases expr, 2int,
    {
        match &param.type_ {
            ParamTy::Value(t) => self.check_value_arg(t, expr),
            ParamTy::Ref(spec) => self.check_ref_arg(spec, expr),
        }
    }

    fn positional(&mut self, sig: &Vec<Param>, args: &Vec<Expr>)
        ensures
            final(self).cx == old(self).cx,
            final(self).borrow_scopes@.len() == old(self).borrow_scopes@.len(),
            final(self).state() == positional_spec(
                old(self).cx@,
                old(self).state(),
                params_view(sig@),
                args@,
                min_len(sig@.len(), args@.len()),
            ),
        decreases args, 0int,
    {
        let n = if sig.len() < args.len() {
            sig.len()
        } else {
            args.len()
        };
        let mut i: usize = 0;
        while i < n
            invariant
                i <= n,
                n == min_len(sig@.len(), args@.len()),
                self.cx == old(self).cx,
                self.borrow_scopes@.len() == old(self).borrow_scopes@.len(),
                self.state() == positional_spec(
                    old(self).cx@,
                    old(self).state(),
                    params_view(sig@),
                    args@,
                    i as int,
                ),
            decreases n - i,
        {
            assert(params_view(sig@)[i as int] == sig@[i as int]@);
            self.check_param(&sig[i], &args[i]);
            i = i + 1;
        }
    }

    fn keywords(&mut self, sig: &Vec<Param>, kwargs: &Vec<Kwarg>, start: usize)
        ensures
            final(self).cx == old(self).cx,
            final(self).borrow_scopes@.len() == old(self).borrow_scopes@.len(),
            final(self).state() == keyword_spec(
                old(self).cx@,
                old(self).state(),
                params_view(sig@),
                kwargs@,
                start as int,
                sig@.len() as int,
            ),
        decreases kwargs, 0int,
    {
        if start >= sig.len() {
            return;
        }
        let mut i: usize = start;
        while i < sig.len()
            invariant
                start <= i <= sig@.len(),
                self.cx == old(self).cx,
                self.borrow_scopes@.len() == old(self).borrow_scopes@.len(),
                self.state() == keyword_spec(
                    old(self).cx@,
                    old(self).state(),
                    params_view(sig@),
                    kwargs@,
                    start as int,
                    i as int,
                ),
            decreases sig@.len() - i,
        {
            assert(params_view(sig@)[i as int] == sig@[i as int]@);
            let ghost prev = self.state();
            if let Some(k) = find_kwarg(kwargs, sig[i].name.as_str()) {
                proof {
                    lemma_kwarg_index(kwargs@, sig@[i as int].name@, kwargs@.len() as int);
                }
                self.check_param(&sig[i], &kwargs[k].value);
                assert(self.state() == param_arg_spec(old(self).cx@, prev, params_view(sig@)[i as int], kwargs@[k as int].value));
            } else {
                assert(self.state() == prev);
            }
            assert(self.state() == keyword_spec(
                    old(self).cx@,
                    old(self).state(),
                    params_view(sig@),
                    kwargs@,
                    start as int,
                    i + 1,
                ));
            i = i + 1;
        }
    }
}


/// Walks the values of the first `n` keyword arguments in order.
pub open spec fn walk_kwargs_spec(cx: CxView, st: BorrowState, ks: Seq<Kwarg>, n: int) -> BorrowState
    decreases n,
{
    if n <= 0 || n > ks.len() {
        st
    } else {
        walk_spec(cx, walk_kwargs_spec(cx, st, ks, n - 1), ks[n - 1].value)
    }
}

/// Checks a call against a signature: positional arguments, then the keyword
/// arguments of the remaining parameters, with the call's borrows in a scope of
/// their own that ends with the call.
pub open spec fn call_spec(
    cx: CxView,
    st: BorrowState,
    sig: Seq<ParamView>,
    args: Seq<Expr>,
    kwargs: Seq<Kwarg>,
) -> BorrowState {
    let p = min_len(sig.len(), args.len());
    let st1 = BorrowState {
        moved: st.moved,
        scopes: st.scopes.push(ScopeView { shared: Set::empty(), mutable: Set::empty() }),
        diags: st.diags,
    };
    let st2 = positional_spec(cx, st1, sig, args, p);
    let st3 = keyword_spec(cx, st2, sig, kwargs, p, sig.len() as int);
    BorrowState { moved: st3.moved, scopes: st3.scopes.drop_last(), diags: st3.diags }
}

/// Borrow checks one statement.
pub open spec fn borrow_stmt_spec(cx: CxView, st: BorrowState, stmt: Stmt) -> BorrowState
    decreases stmt, 0int,
{
    match stmt {
        Stmt::Repeat { times, body } => borrow_stmts_spec(
            cx,
            walk_spec(cx, st, times),
            body@,
            body@.len() as int,
        ),
        Stmt::Forever { body, .. } => borrow_stmts_spec(cx, st, body@, body@.len() as int),
        Stmt::Branch { cond, if_body, else_body } => {
            let st1 = walk_spec(cx, st, cond);
            let st2 = borrow_stmts_spec(cx, st1, if_body@, if_body@.len() as int);
            let st3 = borrow_stmts_spec(
                cx,
                BorrowState { moved: st1.moved, scopes: st2.scopes, diags: st2.diags },
                else_body@,
                else_body@.len() as int,
            );
            BorrowState { moved: st3.moved.union(st2.moved), scopes: st3.scopes, diags: st3.diags }
        },
        Stmt::Until { cond, body } => borrow_stmts_spec(
            cx,
            walk_spec(cx, st, cond),
            body@,
            body@.len() as int,
        ),
        Stmt::SetVar { name, value, .. } => {
            let st1 = mark_move_spec(
                cx,
                walk_spec(cx, st, value),
                value,
                var_type_spec(cx, name.spec_basename()),
                Some(name),
            );
            if name is Name {
                BorrowState {
                    moved: st1.moved.remove((false, name.spec_basename())),
                    scopes: st1.scopes,
                    diags: st1.diags,
                }
            } else {
                st1
            }
        },
        Stmt::ChangeVar { name, value } => check_read_spec(
            cx,
            walk_spec(cx, st, value),
            (false, name.spec_basename()),
            name.spec_span(),
        ),
        Stmt::Show(name) => check_read_spec(cx, st, (false, name.spec_basename()), name.spec_span()),
        Stmt::Hide(name) => check_read_spec(cx, st, (false, name.spec_basename()), name.spec_span()),
        Stmt::AddToList { name, value } => mark_move_spec(
            cx,
            walk_spec(cx, st, value),
            value,
            list_type_spec(cx, name.spec_basename()),
            None,
        ),
        Stmt::DeleteList(_) => st,
        Stmt::DeleteListIndex { index, .. } => walk_spec(cx, st, index),
        Stmt::InsertAtList { name, index, value } => mark_move_spec(
            cx,
            walk_spec(cx, walk_spec(cx, st, index), value),
            value,
            list_type_spec(cx, name.spec_basename()),
            None,
        ),
        Stmt::SetListIndex { name, index, value } => mark_move_spec(
            cx,
            walk_spec(cx, walk_spec(cx, st, index), value),
            value,
            list_type_spec(cx, name.spec_basename()),
            None,
        ),
        Stmt::Block { args, kwargs, .. } => walk_kwargs_spec(
            cx,
            walks_spec(cx, st, args@, args@.len() as int),
            kwargs@,
            kwargs@.len() as int,
        ),
        Stmt::ProcCall { name, args, kwargs, .. } => call_spec(
            cx,
            st,
            proc_signature_spec(cx, name@),
            args@,
            kwargs@,
        ),
        Stmt::FuncCall { name, args, kwargs, .. } => call_spec(
            cx,
            st,
            func_signature_spec(cx, name@),
            args@,
            kwargs@,
        ),
        Stmt::Return { value } => {
            let st1 = walk_spec(cx, st, value);
            match cx.return_type {
                Some(t) => mark_move_spec(cx, st1, value, t, None),
                None => st1,
            }
        },
    }
}

/// Borrow checks the first `n` statements in order.
pub open spec fn borrow_stmts_spec(cx: CxView, st: BorrowState, stmts: Seq<Stmt>, n: int) -> BorrowState
    decreases stmts, n,
{
    if n <= 0 || n > stmts.len() {
        st
    } else {
        borrow_stmt_spec(cx, borrow_stmts_spec(cx, st, stmts, n - 1), stmts[n - 1])
    }
}

impl<'a> Checker<'a> {
    fn walk_kwargs(&mut self, ks: &Vec<Kwarg>)
        ensures
            final(self).cx == old(self).cx,
            final(self).borrow_scopes@.len() == old(self).borrow_scopes@.len(),
            final(self).state() == walk_kwargs_spec(old(self).cx@, old(self).state(), ks@, ks@.len() as int),
    {
        let mut i: usize = 0;
        while i < ks.len()
            invariant
                i <= ks@.len(),
                self.cx == old(self).cx,
                self.borrow_scopes@.len() == old(self).borrow_scopes@.len(),
                self.state() == walk_kwargs_spec(old(self).cx@, old(self).state(), ks@, i as int),
            decreases ks@.len() - i,
        {
            self.walk_expr(&ks[i].value);
            i = i + 1;
        }
    }

    /// Checks a call's arguments against the parameters of the callee: each borrow
    /// an argument takes lasts until the call ends.
    pub fn check_call(&mut self, params: Option<&Vec<Arg>>, args: &Vec<Expr>, kwargs: &Vec<Kwarg>)
        ensures
            final(self).cx == old(self).cx,
            final(self).borrow_scopes@.len() == old(self).borrow_scopes@.len(),
            final(self).state() == call_spec(
                old(self).cx@,
                old(self).state(),
                match params {
                    Some(p) => signature_spec(p@),
                    None => seq![],
                },
                args@,
                kwargs@,
            ),
    {
        let sig = match params {
            Some(p) => signature(p),
            None => Vec::new(),
        };
        assert(params_view(sig@) =~= match params {
            Some(p) => signature_spec(p@),
            None => seq![],
        });
        let n = if sig.len() < args.len() {
            sig.len()
        } else {
            args.len()
        };
        self.push_scope();
        self.positional(&sig, args);
        self.keywords(&sig, kwargs, n);
        self.pop_scope();
    }

    fn check_stmts(&mut self, stmts: &Vec<Stmt>)
        ensures
            final(self).cx == old(self).cx,
            final(self).borrow_scopes@.len() == old(self).borrow_scopes@.len(),
            final(self).state() == borrow_stmts_spec(
                old(self).cx@,
                old(self).state(),
                stmts@,
                stmts@.len() as int,
            ),
        decreases stmts, 0int,
    {
        let mut i: usize = 0;
        while i < stmts.len()
            invariant
                i <= stmts@.len(),
                self.cx == old(self).cx,
                self.borrow_scopes@.len() == old(self).borrow_scopes@.len(),
                self.state() == borrow_stmts_spec(old(self).cx@, old(self).state(), stmts@, i as int),
            decreases stmts@.len() - i,
        {
            self.check_stmt(&stmts[i]);
            i = i + 1;
        }
    }

    fn list_move(&mut self, name: &Name, value: &Expr)
        ensures
            final(self).cx == old(self).cx,
            final(self).borrow_scopes@ == old(self).borrow_scopes@,
            final(self).state() == mark_move_spec(
                old(self).cx@,
                old(self).state(),
                *value,
                list_type_spec(old(self).cx@, name.spec_basename()),
                None,
            ),
    {
        let expected = self.list_type(name.basename().as_str());
        self.mark_move(value, &expected, None);
    }

    fn check_stmt(&mut self, stmt: &Stmt)
        ensures
            final(self).cx == old(self).cx,
            final(self).borrow_scopes@.len() == old(self).borrow_scopes@.len(),
            final(self).state() == borrow_stmt_spec(old(self).cx@, old(self).state(), *stmt),
        decreases stmt, 0int,
    {
        match stmt {
            Stmt::Repeat { times, body } => {
                self.walk_expr(times);
                self.check_stmts(body);
            },
            Stmt::Forever { body, .. } => self.check_stmts(body),
            Stmt::Until { cond, body } => {
                self.walk_expr(cond);
                self.check_stmts(body);
            },
            Stmt::Branch { cond, if_body, else_body } => {
                self.walk_expr(cond);
                let before = self.moved.copy();
                self.check_stmts(if_body);
                let moved_if = self.moved.copy();
                self.moved = before;
                self.check_stmts(else_body);
                self.moved.extend(&moved_if);
            },
            Stmt::SetVar { name, value, .. } => {
                self.walk_expr(value);
                let expected = self.var_type(name.basename().as_str());
                self.mark_move(value, &expected, Some(name));
                if name.fieldname().is_none() {
                    let key = Key::var(name.basename().clone());
                    self.moved.remove(&key);
                }
            },
            Stmt::ChangeVar { name, value } => {
                self.walk_expr(value);
                let key = Key::var(name.basename().clone());
                self.check_read(&key, name.span());
            },
            Stmt::Show(name) => {
                let key = Key::var(name.basename().clone());
                self.check_read(&key, name.span());
            },
            Stmt::Hide(name) => {
                let key = Key::var(name.basename().clone());
                self.check_read(&key, name.span());
            },
            Stmt::AddToList { name, value } => {
                self.walk_expr(value);
                self.list_move(name, value);
            },
            Stmt::DeleteList(_) => {},
            Stmt::DeleteListIndex { index, .. } => self.walk_expr(index),
            Stmt::InsertAtList { name, index, value } => {
                self.walk_expr(index);
                self.walk_expr(value);
                self.list_move(name, value);
            },
            Stmt::SetListIndex { name, index, value } => {
                self.walk_expr(index);
                self.walk_expr(value);
                self.list_move(name, value);
            },
            Stmt::Block { args, kwargs, .. } => {
                self.walks(args);
                self.walk_kwargs(kwargs);
            },
            Stmt::ProcCall { name, args, kwargs, .. } => {
                let sprite = self.cx.sprite;
                self.check_call(sprite.proc_args.get(name.as_str()), args, kwargs);
            },
            Stmt::FuncCall { name, args, kwargs, .. } => {
                let sprite = self.cx.sprite;
                self.check_call(sprite.func_args.get(name.as_str()), args, kwargs);
            },
            Stmt::Return { value } => {
                self.walk_expr(value);
                match &self.cx.return_type {
                    Some(t) => {
                        let expected = t.clone();
                        self.mark_move(value, &expected, None);
                    },
                    None => {},
                }
            },
        }
    }
}


/// What borrow checking a body finds, from no moves and no borrows.
pub open spec fn borrow_body_spec(cx: CxView, body: Option<Vec<Stmt>>) -> Seq<DiagnosticView> {
    match body {
        Some(stmts) => borrow_stmts_spec(
            cx,
            BorrowState { moved: Set::empty(), scopes: seq![], diags: seq![] },
            stmts@,
            stmts@.len() as int,
        ).diags,
        None => seq![],
    }
}

/// The context of a procedure's body: its parameters, no result.
pub open spec fn proc_cx(sprite: Sprite, stage: Option<Sprite>, name: Seq<char>) -> CxView {
    CxView { sprite, stage, args: sprite.proc_args.lookup(name), return_type: None }
}

/// The context of a function's body: its parameters and its result type.
pub open spec fn func_cx(sprite: Sprite, stage: Option<Sprite>, func: Func) -> CxView {
    CxView {
        sprite,
        stage,
        args: sprite.func_args.lookup(func.name@),
        return_type: Some(base_of_type(func.type_@)),
    }
}

/// The context of an event's body: no parameters, no result.
pub open spec fn event_cx(sprite: Sprite, stage: Option<Sprite>) -> CxView {
    CxView { sprite, stage, args: None, return_type: None }
}

/// The diagnostics of the bodies of the first `n` procedures.
pub open spec fn borrow_procs_spec(sprite: Sprite, stage: Option<Sprite>, n: int) -> Seq<DiagnosticView>
    decreases n,
{
    if n <= 0 || n > sprite.procs.entries@.len() {
        seq![]
    } else {
        let name = sprite.procs.entries@[n - 1].1.name@;
        borrow_procs_spec(sprite, stage, n - 1) + borrow_body_spec(
            proc_cx(sprite, stage, name),
            sprite.proc_definitions.lookup(name),
        )
    }
}

/// The diagnostics of the bodies of the first `n` functions.
pub open spec fn borrow_funcs_spec(sprite: Sprite, stage: Option<Sprite>, n: int) -> Seq<DiagnosticView>
    decreases n,
{
    if n <= 0 || n > sprite.funcs.entries@.len() {
        seq![]
    } else {
        let func = sprite.funcs.entries@[n - 1].1;
        borrow_funcs_spec(sprite, stage, n - 1) + borrow_body_spec(
            func_cx(sprite, stage, func),
            sprite.func_definitions.lookup(func.name@),
        )
    }
}

/// The diagnostics of the bodies of the first `n` events.
pub open spec fn borrow_events_spec(sprite: Sprite, stage: Option<Sprite>, n: int) -> Seq<DiagnosticView>
    decreases n,
{
    if n <= 0 || n > sprite.events@.len() {
        seq![]
    } else {
        borrow_events_spec(sprite, stage, n - 1) + borrow_body_spec(
            event_cx(sprite, stage),
            Some(sprite.events@[n - 1].body),
        )
    }
}

/// Everything borrow checking a sprite reports: its procedures, then its
/// functions, then its events, each body from no moves and no borrows.
pub open spec fn borrow_sprite_spec(sprite: Sprite, stage: Option<Sprite>) -> Seq<DiagnosticView> {
    borrow_procs_spec(sprite, stage, sprite.procs.entries@.len() as int) + borrow_funcs_spec(
        sprite,
        stage,
        sprite.funcs.entries@.len() as int,
    ) + borrow_events_spec(sprite, stage, sprite.events@.len() as int)
}

/// Borrow checks one body from no moves and no borrows; yields its diagnostics.
fn check_body(cx: Context, body: Option<&Vec<Stmt>>) -> (r: Vec<Diagnostic>)
    ensures
        diagnostics_view(r@) == borrow_body_spec(
            cx@,
            match body {
                Some(b) => Some(*b),
                None => None,
            },
        ),
{
    let mut checker = Checker {
        cx,
        moved: KeySet::new(),
        borrow_scopes: Vec::new(),
        diagnostics: Vec::new(),
    };
    assert(scopes_view(checker.borrow_scopes@) =~= seq![]);
    assert(diagnostics_view(checker.diagnostics@) =~= seq![]);
    assert(checker.state() == BorrowState { moved: Set::empty(), scopes: seq![], diags: seq![] });
    if let Some(stmts) = body {
        checker.check_stmts(stmts);
    }
    checker.diagnostics
}

/// Borrow checks the bodies of a sprite's procedures, functions and events.
fn check_sprite(sprite: &Sprite, stage: Option<&Sprite>, d: &mut SpriteDiagnostics)
    ensures
        final(d).text == old(d).text,
        diagnostics_view(final(d).diagnostics@) == diagnostics_view(old(d).diagnostics@)
            + borrow_sprite_spec(
            *sprite,
            match stage {
                Some(s) => Some(*s),
                None => None,
            },
        ),
{
    let ghost st = match stage {
        Some(s) => Some(*s),
        None => None,
    };
    let mut found: Vec<Diagnostic> = Vec::new();
    let mut i: usize = 0;
    while i < sprite.procs.entries.len()
        invariant
            i <= sprite.procs.entries@.len(),
            st == match stage {
                Some(s) => Some(*s),
                None => None,
            },
            diagnostics_view(found@) == borrow_procs_spec(*sprite, st, i as int),
        decreases sprite.procs.entries@.len() - i,
    {
        let name = sprite.procs.entries[i].1.name.as_str();
        let cx = Context { sprite, stage, args: sprite.proc_args.get(name), return_type: None };
        assert(cx@ == proc_cx(*sprite, st, name@));
        let mut more = check_body(cx, sprite.proc_definitions.get(name));
        let ghost (f0, m0) = (found@, more@);
        found.append(&mut more);
        proof {
            lemma_diagnostics_view_concat(f0, m0);
        }
        assert(diagnostics_view(found@) =~= borrow_procs_spec(*sprite, st, i + 1));
        i = i + 1;
    }
    let ghost after_procs = diagnostics_view(found@);
    let mut j: usize = 0;
    while j < sprite.funcs.entries.len()
        invariant
            j <= sprite.funcs.entries@.len(),
            st == match stage {
                Some(s) => Some(*s),
                None => None,
            },
            diagnostics_view(found@) == after_procs + borrow_funcs_spec(*sprite, st, j as int),
        decreases sprite.funcs.entries@.len() - j,
    {
        let func = &sprite.funcs.entries[j].1;
        let name = func.name.as_str();
        let cx = Context {
            sprite,
            stage,
            args: sprite.func_args.get(name),
            return_type: Some(BaseTy::from_ast(&func.type_)),
        };
        assert(cx@ == func_cx(*sprite, st, *func));
        let mut more = check_body(cx, sprite.func_definitions.get(name));
        let ghost (f0, m0) = (found@, more@);
        found.append(&mut more);
        proof {
            lemma_diagnostics_view_concat(f0, m0);
        }
        assert(diagnostics_view(found@) =~= after_procs + borrow_funcs_spec(*sprite, st, j + 1));
        j = j + 1;
    }
    let ghost after_funcs = diagnostics_view(found@);
    let mut k: usize = 0;
    while k < sprite.events.len()
        invariant
            k <= sprite.events@.len(),
            st == match stage {
                Some(s) => Some(*s),
                None => None,
            },
            diagnostics_view(found@) == after_funcs + borrow_events_spec(*sprite, st, k as int),
        decreases sprite.events@.len() - k,
    {
        let cx = Context { sprite, stage, args: None, return_type: None };
        assert(cx@ == event_cx(*sprite, st));
        let mut more = check_body(cx, Some(&sprite.events[k].body));
        let ghost (f0, m0) = (found@, more@);
        found.append(&mut more);
        proof {
            lemma_diagnostics_view_concat(f0, m0);
        }
        assert(diagnostics_view(found@) =~= after_funcs + borrow_events_spec(*sprite, st, k + 1));
        k = k + 1;
    }
    d.report_all(found);
}


/// The diagnostics of each entry of `ds` after borrow checking the first `n`
/// sprites of the project: a sprite's diagnostics go to the first entry with its
/// name.
pub open spec fn borrow_sprites_spec(
    project: &Project,
    ds: Seq<(String, SpriteDiagnostics)>,
    n: int,
) -> Seq<Seq<DiagnosticView>>
    decreases n,
{
    if n <= 0 || n > project.sprites.entries@.len() {
        ds.map_values(|e: (String, SpriteDiagnostics)| diagnostics_view(e.1.diagnostics@))
    } else {
        let prev = borrow_sprites_spec(project, ds, n - 1);
        let entry = project.sprites.entries@[n - 1];
        match find_in(ds, entry.0@, ds.len() as int) {
            Some(j) => prev.update(j, prev[j] + borrow_sprite_spec(entry.1, Some(project.stage))),
            None => prev,
        }
    }
}

pub proof fn lemma_borrow_sprites_len(project: &Project, ds: Seq<(String, SpriteDiagnostics)>, n: int)
    ensures
        borrow_sprites_spec(project, ds, n).len() == ds.len(),
    decreases n,
{
    if n > 0 && n <= project.sprites.entries@.len() {
        lemma_borrow_sprites_len(project, ds, n - 1);
        lemma_find_in(ds, project.sprites.entries@[n - 1].0@, ds.len() as int);
    }
}

/// Checks ownership and borrows in every body of the project: the stage's
/// diagnostics go to `stage_diagnostics`, a sprite's to the entry of
/// `sprites_diagnostics` with its name (a sprite without one is not checked).
pub fn check_project(
    project: &Project,
    stage_diagnostics: &mut SpriteDiagnostics,
    sprites_diagnostics: &mut NameMap<SpriteDiagnostics>,
)
    ensures
        final(stage_diagnostics).text == old(stage_diagnostics).text,
        diagnostics_view(final(stage_diagnostics).diagnostics@) == diagnostics_view(
            old(stage_diagnostics).diagnostics@,
        ) + borrow_sprite_spec(project.stage, None),
        same_diagnostic_targets(old(sprites_diagnostics).entries@, final(sprites_diagnostics).entries@),
        forall|j: int|
            0 <= j < final(sprites_diagnostics).entries@.len() ==> diagnostics_view(
                (#[trigger] final(sprites_diagnostics).entries@[j]).1.diagnostics@,
            ) == borrow_sprites_spec(
                project,
                old(sprites_diagnostics).entries@,
                project.sprites.entries@.len() as int,
            )[j],
{
    check_sprite(&project.stage, None, stage_diagnostics);
    let ghost ds0 = sprites_diagnostics.entries@;
    let mut k: usize = 0;
    while k < project.sprites.entries.len()
        invariant
            k <= project.sprites.entries@.len(),
            ds0 == old(sprites_diagnostics).entries@,
            same_diagnostic_targets(ds0, sprites_diagnostics.entries@),
            forall|j: int|
                0 <= j < sprites_diagnostics.entries@.len() ==> diagnostics_view(
                    (#[trigger] sprites_diagnostics.entries@[j]).1.diagnostics@,
                ) == borrow_sprites_spec(project, ds0, k as int)[j],
        decreases project.sprites.entries@.len() - k,
    {
        let name = project.sprites.entries[k].0.as_str();
        proof {
            lemma_find_in(sprites_diagnostics.entries@, name@, sprites_diagnostics.entries@.len() as int);
            lemma_find_in(ds0, name@, ds0.len() as int);
            lemma_find_in_same_names(ds0, sprites_diagnostics.entries@, name@, ds0.len() as int);
            lemma_borrow_sprites_len(project, ds0, k as int);
            lemma_borrow_sprites_len(project, ds0, k + 1);
        }
        if let Some(j) = sprites_diagnostics.find_index(name) {
            let ghost before = sprites_diagnostics.entries@;
            assert(find_in(ds0, name@, ds0.len() as int) == Some(j as int));
            check_sprite(
                &project.sprites.entries[k].1,
                Some(&project.stage),
                &mut sprites_diagnostics.entries[j].1,
            );
            assert forall|i: int|
                0 <= i < sprites_diagnostics.entries@.len() implies diagnostics_view(
                (#[trigger] sprites_diagnostics.entries@[i]).1.diagnostics@,
            ) == borrow_sprites_spec(project, ds0, k + 1)[i] by {
                if i != j {
                    assert(sprites_diagnostics.entries@[i] == before[i]);
                } else {
                    assert(diagnostics_view(before[i].1.diagnostics@) == borrow_sprites_spec(
                        project,
                        ds0,
                        k as int,
                    )[i]);
                }
            }
        } else {
            assert forall|i: int|
                0 <= i < sprites_diagnostics.entries@.len() implies diagnostics_view(
                (#[trigger] sprites_diagnostics.entries@[i]).1.diagnostics@,
            ) == borrow_sprites_spec(project, ds0, k + 1)[i] by {}
        }
        k = k + 1;
    }
}


/// The annotation the backend receives for a type: a struct keeps its name,
/// anything else is a plain value.
pub open spec fn backend_type_spec(t: BaseTyView, start: int, end: int) -> TypeView {
    match t {
        BaseTyView::Struct(name) => TypeView::Struct { name, start, end },
        _ => TypeView::Value,
    }
}

fn backend_type(t: &BaseTy, span: Range<usize>) -> (r: Type)
    ensures
        r@ == backend_type_spec(t@, span.start as int, span.end as int),
{
    match t {
        BaseTy::Struct(name) => Type::Struct { name: name.clone(), span },
        _ => Type::Value,
    }
}

/// `new` is the name `old` with a borrow encoding replaced by the name borrowed.
pub open spec fn name_unborrowed(old: Name, new: Name) -> bool {
    match old {
        Name::Name { name, span } => new matches Name::Name { name: n2, span: s2 } && s2 == span
            && n2@ == match decode_borrow_name_spec(name@) {
            Some((_, l)) => l,
            None => name@,
        },
        Name::DotName { .. } => new == old,
    }
}

/// `new` is the expression `old` with every borrow encoding in it replaced by the
/// name borrowed.
pub open spec fn expr_unborrowed(old: Expr, new: Expr) -> bool
    decreases old, 0int,
{
    match old {
        Expr::Value { .. } => new == old,
        Expr::Name(n) => new matches Expr::Name(n2) && name_unborrowed(n, n2),
        Expr::Arg(n) => new matches Expr::Arg(n2) && name_unborrowed(n, n2),
        Expr::Dot { expr, field, span } => new matches Expr::Dot { expr: x2, field: f2, span: s2 }
            && f2 == field && s2 == span && expr_unborrowed(*expr, *x2),
        Expr::Property { object, property, span } => new matches Expr::Property {
            object: o2,
            property: p2,
            span: s2,
        } && p2 == property && s2 == span && expr_unborrowed(*object, *o2),
        Expr::Repr { repr, span, args } => new matches Expr::Repr { repr: r2, span: s2, args: a2 }
            && r2 == repr && s2 == span && exprs_unborrowed(args@, a2@, args@.len() as int),
        Expr::FuncCall { name, span, args, kwargs } => new matches Expr::FuncCall {
            name: n2,
            span: s2,
            args: a2,
            kwargs: k2,
        } && n2 == name && s2 == span && exprs_unborrowed(args@, a2@, args@.len() as int)
            && kwargs_unborrowed(kwargs@, k2@, kwargs@.len() as int),
        Expr::UnOp { op, span, opr } => new matches Expr::UnOp { op: o2, span: s2, opr: x2 } && o2
            == op && s2 == span && expr_unborrowed(*opr, *x2),
        Expr::BinOp { op, span, left, right } => new matches Expr::BinOp {
            op: o2,
            span: s2,
            left: l2,
            right: r2,
        } && o2 == op && s2 == span && expr_unborrowed(*left, *l2) && expr_unborrowed(*right, *r2),
        Expr::StructLiteral { name, span, fields } => new matches Expr::StructLiteral {
            name: n2,
            span: s2,
            fields: f2,
        } && n2 == name && s2 == span && fields_unborrowed(fields@, f2@, fields@.len() as int),
    }
}

/// The first `n` expressions of `new` are those of `old`, unborrowed, and the
/// lengths agree.
pub open spec fn exprs_unborrowed(old: Seq<Expr>, new: Seq<Expr>, n: int) -> bool
    decreases old, n,
{
    if n <= 0 || n > old.len() {
        old.len() == new.len()
    } else {
        exprs_unborrowed(old, new, n - 1) && expr_unborrowed(old[n - 1], new[n - 1])
    }
}

/// The first `n` keyword arguments of `new` are those of `old` with their values
/// unborrowed, and the lengths agree.
pub open spec fn kwargs_unborrowed(old: Seq<Kwarg>, new: Seq<Kwarg>, n: int) -> bool
    decreases old, n,
{
    if n <= 0 || n > old.len() {
        old.len() == new.len()
    } else {
        kwargs_unborrowed(old, new, n - 1) && new[n - 1].name == old[n - 1].name && new[n
            - 1].span == old[n - 1].span && expr_unborrowed(old[n - 1].value, new[n - 1].value)
    }
}

/// The first `n` fields of `new` are those of `old` with their values unborrowed,
/// and the lengths agree.
pub open spec fn fields_unborrowed(
    old: Seq<StructLiteralField>,
    new: Seq<StructLiteralField>,
    n: int,
) -> bool
    decreases old, n,
{
    if n <= 0 || n > old.len() {
        old.len() == new.len()
    } else {
        fields_unborrowed(old, new, n - 1) && new[n - 1].name == old[n - 1].name && new[n
            - 1].span == old[n - 1].span && expr_unborrowed(old[n - 1].value, new[n - 1].value)
    }
}

pub proof fn lemma_exprs_unborrowed_frame(old: Seq<Expr>, a: Seq<Expr>, b: Seq<Expr>, n: int)
    requires
        a.len() == b.len(),
        forall|j: int| 0 <= j < n ==> a[j] == b[j],
    ensures
        exprs_unborrowed(old, a, n) == exprs_unborrowed(old, b, n),
    decreases n,
{
    if n > 0 && n <= old.len() {
        lemma_exprs_unborrowed_frame(old, a, b, n - 1);
    }
}

pub proof fn lemma_kwargs_unborrowed_frame(old: Seq<Kwarg>, a: Seq<Kwarg>, b: Seq<Kwarg>, n: int)
    requires
        a.len() == b.len(),
        forall|j: int| 0 <= j < n ==> a[j] == b[j],
    ensures
        kwargs_unborrowed(old, a, n) == kwargs_unborrowed(old, b, n),
    decreases n,
{
    if n > 0 && n <= old.len() {
        lemma_kwargs_unborrowed_frame(old, a, b, n - 1);
    }
}

pub proof fn lemma_fields_unborrowed_frame(
    old: Seq<StructLiteralField>,
    a: Seq<StructLiteralField>,
    b: Seq<StructLiteralField>,
    n: int,
)
    requires
        a.len() == b.len(),
        forall|j: int| 0 <= j < n ==> a[j] == b[j],
    ensures
        fields_unborrowed(old, a, n) == fields_unborrowed(old, b, n),
    decreases n,
{
    if n > 0 && n <= old.len() {
        lemma_fields_unborrowed_frame(old, a, b, n - 1);
    }
}

fn erase_name(name: &mut Name)
    ensures
        name_unborrowed(*old(name), *final(name)),
{
    let (logical, span) = match &*name {
        Name::Name { name: n, span } => match decode_borrow_name(n.as_str()) {
            Some((_, l)) => (l, span.start..span.end),
            None => {
                return;
            },
        },
        Name::DotName { .. } => {
            return;
        },
    };
    *name = Name::Name { name: logical, span };
}

fn erase_expr(expr: &mut Expr)
    ensures
        expr_unborrowed(*old(expr), *final(expr)),
    decreases *old(expr), 0int,
{
    match expr {
        Expr::Name(n) => erase_name(n),
        Expr::Arg(n) => erase_name(n),
        Expr::UnOp { opr, .. } => erase_expr(&mut **opr),
        Expr::Repr { args, .. } => erase_exprs(args),
        Expr::Property { object, .. } => erase_expr(&mut **object),
        Expr::Dot { expr: inner, .. } => erase_expr(&mut **inner),
        Expr::BinOp { left, right, .. } => {
            erase_expr(&mut **left);
            erase_expr(&mut **right);
        },
        Expr::FuncCall { args, kwargs, .. } => {
            erase_exprs(args);
            erase_kwargs(kwargs);
        },
        Expr::StructLiteral { fields, .. } => erase_fields(fields),
        Expr::Value { .. } => {},
    }
}

fn erase_exprs(es: &mut Vec<Expr>)
    ensures
        exprs_unborrowed(old(es)@, final(es)@, old(es)@.len() as int),
    decreases *old(es), 0int,
{
    let ghost original = es@;
    let mut i: usize = 0;
    while i < es.len()
        invariant
            i <= es@.len(),
            es@.len() == original.len(),
            original == old(es)@,
            exprs_unborrowed(original, es@, i as int),
            forall|j: int| i <= j < es@.len() ==> es@[j] == original[j],
        decreases es@.len() - i,
    {
        let ghost before = es@;
        assert(decreases_to!(*old(es) => old(es)@[i as int]));
        erase_expr(&mut es[i]);
        proof {
            lemma_exprs_unborrowed_frame(original, before, es@, i as int);
        }
        i = i + 1;
    }
}

fn erase_kwargs(ks: &mut Vec<Kwarg>)
    ensures
        kwargs_unborrowed(old(ks)@, final(ks)@, old(ks)@.len() as int),
    decreases *old(ks), 0int,
{
    let ghost original = ks@;
    let mut i: usize = 0;
    while i < ks.len()
        invariant
            i <= ks@.len(),
            ks@.len() == original.len(),
            original == old(ks)@,
            kwargs_unborrowed(original, ks@, i as int),
            forall|j: int| i <= j < ks@.len() ==> ks@[j] == original[j],
        decreases ks@.len() - i,
    {
        let ghost before = ks@;
        assert(decreases_to!(*old(ks) => old(ks)@[i as int].value));
        erase_expr(&mut ks[i].value);
        proof {
            lemma_kwargs_unborrowed_frame(original, before, ks@, i as int);
        }
        i = i + 1;
    }
}

fn erase_fields(fs: &mut Vec<StructLiteralField>)
    ensures
        fields_unborrowed(old(fs)@, final(fs)@, old(fs)@.len() as int),
    decreases *old(fs), 0int,
{
    let ghost original = fs@;
    let mut i: usize = 0;
    while i < fs.len()
        invariant
            i <= fs@.len(),
            fs@.len() == original.len(),
            original == old(fs)@,
            fields_unborrowed(original, fs@, i as int),
            forall|j: int| i <= j < fs@.len() ==> fs@[j] == original[j],
        decreases fs@.len() - i,
    {
        let ghost before = fs@;
        assert(decreases_to!(*old(fs) => old(fs)@[i as int].value));
        erase_expr(&mut fs[i].value);
        proof {
            lemma_fields_unborrowed_frame(original, before, fs@, i as int);
        }
        i = i + 1;
    }
}


/// `new` is the statement `old` with every borrow encoding in its expressions
/// replaced by the name borrowed.
pub open spec fn stmt_unborrowed(old: Stmt, new: Stmt) -> bool
    decreases old, 0int,
{
    match old {
        Stmt::Repeat { times, body } => new matches Stmt::Repeat { times: t2, body: b2 }
            && expr_unborrowed(times, t2) && stmts_unborrowed(body@, b2@, body@.len() as int),
        Stmt::Forever { body, span } => new matches Stmt::Forever { body: b2, span: s2 } && s2
            == span && stmts_unborrowed(body@, b2@, body@.len() as int),
        Stmt::Branch { cond, if_body, else_body } => new matches Stmt::Branch {
            cond: c2,
            if_body: i2,
            else_body: e2,
        } && expr_unborrowed(cond, c2) && stmts_unborrowed(if_body@, i2@, if_body@.len() as int)
            && stmts_unborrowed(else_body@, e2@, else_body@.len() as int),
        Stmt::Until { cond, body } => new matches Stmt::Until { cond: c2, body: b2 }
            && expr_unborrowed(cond, c2) && stmts_unborrowed(body@, b2@, body@.len() as int),
        Stmt::SetVar { name, value, type_, is_local } => new matches Stmt::SetVar {
            name: n2,
            value: v2,
            type_: t2,
            is_local: l2,
        } && n2 == name && t2 == type_ && l2 == is_local && expr_unborrowed(value, v2),
        Stmt::ChangeVar { name, value } => new matches Stmt::ChangeVar { name: n2, value: v2 } && n2
            == name && expr_unborrowed(value, v2),
        Stmt::AddToList { name, value } => new matches Stmt::AddToList { name: n2, value: v2 } && n2
            == name && expr_unborrowed(value, v2),
        Stmt::DeleteListIndex { name, index } => new matches Stmt::DeleteListIndex {
            name: n2,
            index: i2,
        } && n2 == name && expr_unborrowed(index, i2),
        Stmt::InsertAtList { name, index, value } => new matches Stmt::InsertAtList {
            name: n2,
            index: i2,
            value: v2,
        } && n2 == name && expr_unborrowed(index, i2) && expr_unborrowed(value, v2),
        Stmt::SetListIndex { name, index, value } => new matches Stmt::SetListIndex {
            name: n2,
            index: i2,
            value: v2,
        } && n2 == name && expr_unborrowed(index, i2) && expr_unborrowed(value, v2),
        Stmt::Block { block, span, args, kwargs } => new matches Stmt::Block {
            block: b2,
            span: s2,
            args: a2,
            kwargs: k2,
        } && b2 == block && s2 == span && exprs_unborrowed(args@, a2@, args@.len() as int)
            && kwargs_unborrowed(kwargs@, k2@, kwargs@.len() as int),
        Stmt::ProcCall { name, span, args, kwargs } => new matches Stmt::ProcCall {
            name: n2,
            span: s2,
            args: a2,
            kwargs: k2,
        } && n2 == name && s2 == span && exprs_unborrowed(args@, a2@, args@.len() as int)
            && kwargs_unborrowed(kwargs@, k2@, kwargs@.len() as int),
        Stmt::FuncCall { name, span, args, kwargs } => new matches Stmt::FuncCall {
            name: n2,
            span: s2,
            args: a2,
            kwargs: k2,
        } && n2 == name && s2 == span && exprs_unborrowed(args@, a2@, args@.len() as int)
            && kwargs_unborrowed(kwargs@, k2@, kwargs@.len() as int),
        Stmt::Return { value } => new matches Stmt::Return { value: v2 } && expr_unborrowed(value, v2),
        _ => new == old,
    }
}

/// The first `n` statements of `new` are those of `old`, unborrowed, and the
/// lengths agree.
pub open spec fn stmts_unborrowed(old: Seq<Stmt>, new: Seq<Stmt>, n: int) -> bool
    decreases old, n,
{
    if n <= 0 || n > old.len() {
        old.len() == new.len()
    } else {
        stmts_unborrowed(old, new, n - 1) && stmt_unborrowed(old[n - 1], new[n - 1])
    }
}

pub proof fn lemma_stmts_unborrowed_frame(old: Seq<Stmt>, a: Seq<Stmt>, b: Seq<Stmt>, n: int)
    requires
        a.len() == b.len(),
        forall|j: int| 0 <= j < n ==> a[j] == b[j],
    ensures
        stmts_unborrowed(old, a, n) == stmts_unborrowed(old, b, n),
    decreases n,
{
    if n > 0 && n <= old.len() {
        lemma_stmts_unborrowed_frame(old, a, b, n - 1);
    }
}

fn erase_stmt(stmt: &mut Stmt)
    ensures
        stmt_unborrowed(*old(stmt), *final(stmt)),
    decreases *old(stmt), 0int,
{
    match stmt {
        Stmt::Repeat { times, body } => {
            erase_expr(times);
            erase_stmts(body);
        },
        Stmt::Forever { body, .. } => erase_stmts(body),
        Stmt::Until { cond, body } => {
            erase_expr(cond);
            erase_stmts(body);
        },
        Stmt::Branch { cond, if_body, else_body } => {
            erase_expr(cond);
            erase_stmts(if_body);
            erase_stmts(else_body);
        },
        Stmt::SetVar { value, .. } => erase_expr(value),
        Stmt::ChangeVar { value, .. } => erase_expr(value),
        Stmt::Show(_) => {},
        Stmt::Hide(_) => {},
        Stmt::DeleteList(_) => {},
        Stmt::AddToList { value, .. } => erase_expr(value),
        Stmt::DeleteListIndex { index, .. } => erase_expr(index),
        Stmt::InsertAtList { index, value, .. } => {
            erase_expr(index);
            erase_expr(value);
        },
        Stmt::SetListIndex { index, value, .. } => {
            erase_expr(index);
            erase_expr(value);
        },
        Stmt::Block { args, kwargs, .. } => {
            erase_exprs(args);
            erase_kwargs(kwargs);
        },
        Stmt::ProcCall { args, kwargs, .. } => {
            erase_exprs(args);
            erase_kwargs(kwargs);
        },
        Stmt::FuncCall { args, kwargs, .. } => {
            erase_exprs(args);
            erase_kwargs(kwargs);
        },
        Stmt::Return { value } => erase_expr(value),
    }
}

fn erase_stmts(stmts: &mut Vec<Stmt>)
    ensures
        stmts_unborrowed(old(stmts)@, final(stmts)@, old(stmts)@.len() as int),
    decreases *old(stmts), 0int,
{
    let ghost original = stmts@;
    let mut i: usize = 0;
    while i < stmts.len()
        invariant
            i <= stmts@.len(),
            stmts@.len() == original.len(),
            original == old(stmts)@,
            stmts_unborrowed(original, stmts@, i as int),
            forall|j: int| i <= j < stmts@.len() ==> stmts@[j] == original[j],
        decreases stmts@.len() - i,
    {
        let ghost before = stmts@;
        assert(decreases_to!(*old(stmts) => old(stmts)@[i as int]));
        erase_stmt(&mut stmts[i]);
        proof {
            lemma_stmts_unborrowed_frame(original, before, stmts@, i as int);
        }
        i = i + 1;
    }
}


/// `new` is the parameter `old` with a reference encoding replaced by the name the
/// body uses and the type the backend receives for what it refers to.
pub open spec fn arg_unborrowed(old: Arg, new: Arg) -> bool {
    match decode_ref_arg_spec(old.name@) {
        Some((_, t, l)) => new.name@ == l && new.span == old.span && new.type_@ == backend_type_spec(
            base_of_name(t),
            old.span.start as int,
            old.span.end as int,
        ),
        None => new == old,
    }
}

pub open spec fn args_unborrowed(old: Seq<Arg>, new: Seq<Arg>) -> bool {
    &&& old.len() == new.len()
    &&& forall|i: int| 0 <= i < old.len() ==> arg_unborrowed(old[i], #[trigger] new[i])
}

pub open spec fn events_unborrowed(old: Seq<Event>, new: Seq<Event>) -> bool {
    &&& old.len() == new.len()
    &&& forall|i: int|
        0 <= i < old.len() ==> (#[trigger] new[i]).name == old[i].name && new[i].span
            == old[i].span && stmts_unborrowed(old[i].body@, new[i].body@, old[i].body@.len() as int)
}

/// `new` is the sprite `old` with every reference parameter and borrow expression
/// of its procedures, functions and events decoded; its declarations unchanged.
pub open spec fn sprite_unborrowed(old: Sprite, new: Sprite) -> bool {
    &&& new.vars == old.vars
    &&& new.lists == old.lists
    &&& new.procs == old.procs
    &&& new.proc_locals == old.proc_locals
    &&& new.funcs == old.funcs
    &&& new.func_locals == old.func_locals
    &&& entries_related(
        old.proc_args.entries@,
        new.proc_args.entries@,
        |a: Vec<Arg>, b: Vec<Arg>| args_unborrowed(a@, b@),
    )
    &&& entries_related(
        old.func_args.entries@,
        new.func_args.entries@,
        |a: Vec<Arg>, b: Vec<Arg>| args_unborrowed(a@, b@),
    )
    &&& entries_related(
        old.proc_definitions.entries@,
        new.proc_definitions.entries@,
        |a: Vec<Stmt>, b: Vec<Stmt>| stmts_unborrowed(a@, b@, a@.len() as int),
    )
    &&& entries_related(
        old.func_definitions.entries@,
        new.func_definitions.entries@,
        |a: Vec<Stmt>, b: Vec<Stmt>| stmts_unborrowed(a@, b@, a@.len() as int),
    )
    &&& events_unborrowed(old.events@, new.events@)
}

fn erase_arg(arg: &mut Arg)
    ensures
        arg_unborrowed(*old(arg), *final(arg)),
{
    let spec = match decode_ref_arg(arg.name.as_str()) {
        Some(s) => s,
        None => {
            return;
        },
    };
    let t = backend_type(&spec.inner, arg.span.start..arg.span.end);
    arg.name = spec.logical_name;
    arg.type_ = t;
}

fn erase_args(args: &mut Vec<Arg>)
    ensures
        args_unborrowed(old(args)@, final(args)@),
{
    let mut i: usize = 0;
    while i < args.len()
        invariant
            i <= args@.len(),
            args@.len() == old(args)@.len(),
            forall|j: int| 0 <= j < i ==> arg_unborrowed(old(args)@[j], #[trigger] args@[j]),
            forall|j: int| i <= j < args@.len() ==> #[trigger] args@[j] == old(args)@[j],
        decreases args@.len() - i,
    {
        erase_arg(&mut args[i]);
        i = i + 1;
    }
}

fn erase_args_map(m: &mut NameMap<Vec<Arg>>)
    ensures
        entries_related(
            old(m).entries@,
            final(m).entries@,
            |a: Vec<Arg>, b: Vec<Arg>| args_unborrowed(a@, b@),
        ),
{
    let mut i: usize = 0;
    while i < m.entries.len()
        invariant
            i <= m.entries@.len(),
            m.entries@.len() == old(m).entries@.len(),
            forall|j: int|
                0 <= j < i ==> (#[trigger] m.entries@[j]).0 == old(m).entries@[j].0 && args_unborrowed(
                    old(m).entries@[j].1@,
                    m.entries@[j].1@,
                ),
            forall|j: int| i <= j < m.entries@.len() ==> #[trigger] m.entries@[j] == old(m).entries@[j],
        decreases m.entries@.len() - i,
    {
        erase_args(&mut m.entries[i].1);
        i = i + 1;
    }
}

fn erase_bodies(m: &mut NameMap<Vec<Stmt>>)
    ensures
        entries_related(
            old(m).entries@,
            final(m).entries@,
            |a: Vec<Stmt>, b: Vec<Stmt>| stmts_unborrowed(a@, b@, a@.len() as int),
        ),
{
    let mut i: usize = 0;
    while i < m.entries.len()
        invariant
            i <= m.entries@.len(),
            m.entries@.len() == old(m).entries@.len(),
            forall|j: int|
                0 <= j < i ==> (#[trigger] m.entries@[j]).0 == old(m).entries@[j].0 && stmts_unborrowed(
                    old(m).entries@[j].1@,
                    m.entries@[j].1@,
                    old(m).entries@[j].1@.len() as int,
                ),
            forall|j: int| i <= j < m.entries@.len() ==> #[trigger] m.entries@[j] == old(m).entries@[j],
        decreases m.entries@.len() - i,
    {
        erase_stmts(&mut m.entries[i].1);
        i = i + 1;
    }
}

fn erase_events(events: &mut Vec<Event>)
    ensures
        events_unborrowed(old(events)@, final(events)@),
{
    let mut i: usize = 0;
    while i < events.len()
        invariant
            i <= events@.len(),
            events@.len() == old(events)@.len(),
            forall|j: int|
                0 <= j < i ==> (#[trigger] events@[j]).name == old(events)@[j].name
                    && events@[j].span == old(events)@[j].span && stmts_unborrowed(
                    old(events)@[j].body@,
                    events@[j].body@,
                    old(events)@[j].body@.len() as int,
                ),
            forall|j: int| i <= j < events@.len() ==> #[trigger] events@[j] == old(events)@[j],
        decreases events@.len() - i,
    {
        erase_stmts(&mut events[i].body);
        i = i + 1;
    }
}

fn erase_sprite(sprite: &mut Sprite)
    ensures
        sprite_unborrowed(*old(sprite), *final(sprite)),
{
    erase_args_map(&mut sprite.proc_args);
    erase_args_map(&mut sprite.func_args);
    erase_bodies(&mut sprite.proc_definitions);
    erase_bodies(&mut sprite.func_definitions);
    erase_events(&mut sprite.events);
}

/// Removes the reference encoding after static checking: the backend receives the
/// parameters' own names with the types of what they refer to, and the names that
/// borrow expressions borrow, so code generation is unchanged.
pub fn erase_project(project: &mut Project)
    ensures
        sprite_unborrowed(old(project).stage, final(project).stage),
        entries_related(
            old(project).sprites.entries@,
            final(project).sprites.entries@,
            |a: Sprite, b: Sprite| sprite_unborrowed(a, b),
        ),
{
    erase_sprite(&mut project.stage);
    let ghost stage_after = project.stage;
    let mut m: usize = 0;
    while m < project.sprites.entries.len()
        invariant
            m <= project.sprites.entries@.len(),
            project.stage == stage_after,
            project.sprites.entries@.len() == old(project).sprites.entries@.len(),
            forall|j: int|
                0 <= j < m ==> (#[trigger] project.sprites.entries@[j]).0 == old(
                    project,
                ).sprites.entries@[j].0 && sprite_unborrowed(
                    old(project).sprites.entries@[j].1,
                    project.sprites.entries@[j].1,
                ),
            forall|j: int|
                m <= j < project.sprites.entries@.len() ==> #[trigger] project.sprites.entries@[j]
                    == old(project).sprites.entries@[j],
        decreases project.sprites.entries@.len() - m,
    {
        erase_sprite(&mut project.sprites.entries[m].1);
        m = m + 1;
    }
}


/// Checking an expression leaves the borrow scopes as they were: the borrows a
/// call takes end with the call.
pub proof fn lemma_walk_keeps_scopes(cx: CxView, st: BorrowState, e: Expr)
    ensures
        walk_spec(cx, st, e).scopes == st.scopes,
    decreases e, 0int,
{
    if borrow_expr_spec(e) is None {
        match e {
            Expr::Dot { expr, .. } => lemma_walk_keeps_scopes(cx, st, *expr),
            Expr::Property { object, .. } => lemma_walk_keeps_scopes(cx, st, *object),
            Expr::Repr { args, .. } => lemma_walks_keep_scopes(cx, st, args@, args@.len() as int),
            Expr::FuncCall { name, args, kwargs, .. } => {
                let sig = func_signature_spec(cx, name@);
                let p = min_len(sig.len(), args@.len());
                let st1 = BorrowState {
                    moved: st.moved,
                    scopes: st.scopes.push(ScopeView { shared: Set::empty(), mutable: Set::empty() }),
                    diags: st.diags,
                };
                lemma_positional_keeps_outer(cx, st1, sig, args@, p);
                let st2 = positional_spec(cx, st1, sig, args@, p);
                lemma_keyword_keeps_outer(cx, st2, sig, kwargs@, p, sig.len() as int);
                assert(st1.scopes.drop_last() =~= st.scopes);
            },
            Expr::UnOp { opr, .. } => lemma_walk_keeps_scopes(cx, st, *opr),
            Expr::BinOp { left, right, .. } => {
                lemma_walk_keeps_scopes(cx, st, *left);
                lemma_walk_keeps_scopes(cx, walk_spec(cx, st, *left), *right);
            },
            Expr::StructLiteral { fields, .. } => lemma_walk_fields_keep_scopes(
                cx,
                st,
                fields@,
                fields@.len() as int,
            ),
            _ => {},
        }
    }
}

pub proof fn lemma_walks_keep_scopes(cx: CxView, st: BorrowState, es: Seq<Expr>, n: int)
    ensures
        walks_spec(cx, st, es, n).scopes == st.scopes,
    decreases es, n,
{
    if n > 0 && n <= es.len() {
        lemma_walks_keep_scopes(cx, st, es, n - 1);
        lemma_walk_keeps_scopes(cx, walks_spec(cx, st, es, n - 1), es[n - 1]);
    }
}

pub proof fn lemma_walk_fields_keep_scopes(
    cx: CxView,
    st: BorrowState,
    fs: Seq<StructLiteralField>,
    n: int,
)
    ensures
        walk_fields_spec(cx, st, fs, n).scopes == st.scopes,
    decreases fs, n,
{
    if n > 0 && n <= fs.len() {
        lemma_walk_fields_keep_scopes(cx, st, fs, n - 1);
        lemma_walk_keeps_scopes(cx, walk_fields_spec(cx, st, fs, n - 1), fs[n - 1].value);
    }
}

/// Checking an argument touches only the innermost scope, the call's own.
pub proof fn lemma_param_arg_keeps_outer(cx: CxView, st: BorrowState, p: ParamView, e: Expr)
    requires
        st.scopes.len() > 0,
    ensures
        param_arg_spec(cx, st, p, e).scopes.len() == st.scopes.len(),
        param_arg_spec(cx, st, p, e).scopes.drop_last() == st.scopes.drop_last(),
    decreases e, 2int,
{
    if borrow_expr_spec(e) is None {
        lemma_walk_keeps_scopes(cx, st, e);
        if let ParamTyView::Ref { .. } = p.ty {
            let span = e.spec_span();
            let given = match move_source_spec(e) {
                Some(k) => key_type_spec(cx, k),
                None => BaseTyView::Dynamic,
            };
            let expected = TypeView::Struct {
                name: ref_name(p.ty->mutable, p.ty->inner),
                start: span.0,
                end: span.1,
            };
            lemma_walk_keeps_scopes(
                cx,
                add_diag(st, mismatch_view(expected, base_to_type(given, span.0, span.1), span)),
                e,
            );
        }
    } else {
        let (m, k, span) = borrow_expr_spec(e)->0;
        assert(add_borrow(st.scopes, k, m).drop_last() =~= st.scopes.drop_last());
        assert(add_borrow(st.scopes, k, true).drop_last() =~= st.scopes.drop_last());
        assert(add_borrow(st.scopes, k, false).drop_last() =~= st.scopes.drop_last());
    }
}

pub proof fn lemma_positional_keeps_outer(
    cx: CxView,
    st: BorrowState,
    sig: Seq<ParamView>,
    args: Seq<Expr>,
    n: int,
)
    requires
        st.scopes.len() > 0,
    ensures
        positional_spec(cx, st, sig, args, n).scopes.len() == st.scopes.len(),
        positional_spec(cx, st, sig, args, n).scopes.drop_last() == st.scopes.drop_last(),
    decreases args, n,
{
    if n > 0 && n <= args.len() && n <= sig.len() {
        lemma_positional_keeps_outer(cx, st, sig, args, n - 1);
        lemma_param_arg_keeps_outer(
            cx,
            positional_spec(cx, st, sig, args, n - 1),
            sig[n - 1],
            args[n - 1],
        );
    }
}

pub proof fn lemma_keyword_keeps_outer(
    cx: CxView,
    st: BorrowState,
    sig: Seq<ParamView>,
    kwargs: Seq<Kwarg>,
    start: int,
    n: int,
)
    requires
        st.scopes.len() > 0,
    ensures
        keyword_spec(cx, st, sig, kwargs, start, n).scopes.len() == st.scopes.len(),
        keyword_spec(cx, st, sig, kwargs, start, n).scopes.drop_last() == st.scopes.drop_last(),
    decreases kwargs, n,
{
    if n > 0 && n > start && n <= sig.len() {
        lemma_keyword_keeps_outer(cx, st, sig, kwargs, start, n - 1);
        lemma_kwarg_index(kwargs, sig[n - 1].name, kwargs.len() as int);
        if let Some(i) = kwarg_index(kwargs, sig[n - 1].name, kwargs.len() as int) {
            lemma_param_arg_keeps_outer(
                cx,
                keyword_spec(cx, st, sig, kwargs, start, n - 1),
                sig[n - 1],
                kwargs[i].value,
            );
        }
    }
}


pub proof fn lemma_walk_kwargs_keep_scopes(cx: CxView, st: BorrowState, ks: Seq<Kwarg>, n: int)
    ensures
        walk_kwargs_spec(cx, st, ks, n).scopes == st.scopes,
    decreases n,
{
    if n > 0 && n <= ks.len() {
        lemma_walk_kwargs_keep_scopes(cx, st, ks, n - 1);
        lemma_walk_keeps_scopes(cx, walk_kwargs_spec(cx, st, ks, n - 1), ks[n - 1].value);
    }
}

/// The borrows of a call end with the call.
pub proof fn lemma_call_keeps_scopes(
    cx: CxView,
    st: BorrowState,
    sig: Seq<ParamView>,
    args: Seq<Expr>,
    kwargs: Seq<Kwarg>,
)
    ensures
        call_spec(cx, st, sig, args, kwargs).scopes == st.scopes,
{
    let p = min_len(sig.len(), args.len());
    let st1 = BorrowState {
        moved: st.moved,
        scopes: st.scopes.push(ScopeView { shared: Set::empty(), mutable: Set::empty() }),
        diags: st.diags,
    };
    lemma_positional_keeps_outer(cx, st1, sig, args, p);
    let st2 = positional_spec(cx, st1, sig, args, p);
    lemma_keyword_keeps_outer(cx, st2, sig, kwargs, p, sig.len() as int);
    assert(st1.scopes.drop_last() =~= st.scopes);
}

/// A statement leaves no borrow behind: every borrow lasts for the call it is
/// passed to, and the scopes after a statement are those before it.
pub proof fn lemma_stmt_keeps_scopes(cx: CxView, st: BorrowState, stmt: Stmt)
    ensures
        borrow_stmt_spec(cx, st, stmt).scopes == st.scopes,
    decreases stmt, 0int,
{
    match stmt {
        Stmt::Repeat { times, body } => {
            lemma_walk_keeps_scopes(cx, st, times);
            lemma_stmts_keep_scopes(cx, walk_spec(cx, st, times), body@, body@.len() as int);
        },
        Stmt::Forever { body, .. } => lemma_stmts_keep_scopes(cx, st, body@, body@.len() as int),
        Stmt::Branch { cond, if_body, else_body } => {
            lemma_walk_keeps_scopes(cx, st, cond);
            let st1 = walk_spec(cx, st, cond);
            lemma_stmts_keep_scopes(cx, st1, if_body@, if_body@.len() as int);
            let st2 = borrow_stmts_spec(cx, st1, if_body@, if_body@.len() as int);
            lemma_stmts_keep_scopes(
                cx,
                BorrowState { moved: st1.moved, scopes: st2.scopes, diags: st2.diags },
                else_body@,
                else_body@.len() as int,
            );
        },
        Stmt::Until { cond, body } => {
            lemma_walk_keeps_scopes(cx, st, cond);
            lemma_stmts_keep_scopes(cx, walk_spec(cx, st, cond), body@, body@.len() as int);
        },
        Stmt::SetVar { value, .. } => lemma_walk_keeps_scopes(cx, st, value),
        Stmt::ChangeVar { value, .. } => lemma_walk_keeps_scopes(cx, st, value),
        Stmt::AddToList { value, .. } => lemma_walk_keeps_scopes(cx, st, value),
        Stmt::DeleteListIndex { index, .. } => lemma_walk_keeps_scopes(cx, st, index),
        Stmt::InsertAtList { index, value, .. } => {
            lemma_walk_keeps_scopes(cx, st, index);
            lemma_walk_keeps_scopes(cx, walk_spec(cx, st, index), value);
        },
        Stmt::SetListIndex { index, value, .. } => {
            lemma_walk_keeps_scopes(cx, st, index);
            lemma_walk_keeps_scopes(cx, walk_spec(cx, st, index), value);
        },
        Stmt::Block { args, kwargs, .. } => {
            lemma_walks_keep_scopes(cx, st, args@, args@.len() as int);
            lemma_walk_kwargs_keep_scopes(
                cx,
                walks_spec(cx, st, args@, args@.len() as int),
                kwargs@,
                kwargs@.len() as int,
            );
        },
        Stmt::ProcCall { name, args, kwargs, .. } => lemma_call_keeps_scopes(
            cx,
            st,
            proc_signature_spec(cx, name@),
            args@,
            kwargs@,
        ),
        Stmt::FuncCall { name, args, kwargs, .. } => lemma_call_keeps_scopes(
            cx,
            st,
            func_signature_spec(cx, name@),
            args@,
            kwargs@,
        ),
        Stmt::Return { value } => lemma_walk_keeps_scopes(cx, st, value),
        _ => {},
    }
}

/// Statements in sequence leave no borrow behind.
pub proof fn lemma_stmts_keep_scopes(cx: CxView, st: BorrowState, stmts: Seq<Stmt>, n: int)
    ensures
        borrow_stmts_spec(cx, st, stmts, n).scopes == st.scopes,
    decreases stmts, n,
{
    if n > 0 && n <= stmts.len() {
        lemma_stmts_keep_scopes(cx, st, stmts, n - 1);
        lemma_stmt_keeps_scopes(cx, borrow_stmts_spec(cx, st, stmts, n - 1), stmts[n - 1]);
    }
}


/// How the borrow checker's types relate: every type accepts itself; the
/// dynamic type accepts and is accepted by every type; an `Int` stands where a
/// `Number` is expected but not the reverse; only strings and structs are owned.
pub proof fn lemma_base_type_rules(t: BaseTyView)
    ensures
        base_accepts(t, t),
        base_accepts(BaseTyView::Dynamic, t),
        base_accepts(t, BaseTyView::Dynamic),
        base_accepts(BaseTyView::Number, BaseTyView::Int),
        !base_accepts(BaseTyView::Int, BaseTyView::Number),
        base_owned(t) <==> (t is String || t is Struct),
{
}

/// Shared borrows of one value coexist in a call: a shared borrow of a value that
/// is neither moved nor borrowed mutably is accepted without a diagnostic and
/// joins the call's scope, and a second shared borrow of it is accepted too.
pub proof fn lemma_shared_borrows_coexist(
    cx: CxView,
    st: BorrowState,
    inner: BaseTyView,
    e1: Expr,
    e2: Expr,
    k: (bool, Seq<char>),
)
    requires
        st.scopes.len() > 0,
        borrow_expr_spec(e1) matches Some((m1, k1, _)) && !m1 && k1 == k,
        borrow_expr_spec(e2) matches Some((m2, k2, _)) && !m2 && k2 == k,
        base_accepts(inner, key_type_spec(cx, k)),
        !st.moved.contains(k),
        !borrowed_mutably_spec(st.scopes, k),
    ensures
        ({
            let st1 = ref_arg_spec(cx, st, false, inner, e1);
            let st2 = ref_arg_spec(cx, st1, false, inner, e2);
            &&& st1.diags == st.diags
            &&& st2.diags == st.diags
            &&& st2.scopes.last().shared.contains(k)
        }),
{
    let st1 = ref_arg_spec(cx, st, false, inner, e1);
    assert(st1.scopes == add_borrow(st.scopes, k, false));
    assert forall|i: int| 0 <= i < st1.scopes.len() implies (#[trigger] st1.scopes[i]).mutable
        == st.scopes[i].mutable by {}
    assert(!borrowed_mutably_spec(st1.scopes, k));
}

/// A mutable borrow conflicts with any other borrow of the value in the call:
/// it is reported as already borrowed, and nothing else changes.
pub proof fn lemma_mutable_borrow_conflicts(
    cx: CxView,
    st: BorrowState,
    inner: BaseTyView,
    e: Expr,
    k: (bool, Seq<char>),
    span: (int, int),
)
    requires
        borrow_expr_spec(e) == Some((true, k, span)),
        base_accepts(inner, key_type_spec(cx, k)),
        !st.moved.contains(k),
        !(k.0 && arg_ref_is_mutable_spec(cx, k.1) == Some(false)),
        borrowed_any_spec(st.scopes, k),
    ensures
        ref_arg_spec(cx, st, true, inner, e) == add_diag(
            st,
            state_error_view(
                TypeView::Struct { name: ref_name(true, inner), start: span.0, end: span.1 },
                "already borrowed "@ + base_name(key_type_spec(cx, k)),
                span,
            ),
        ),
{
}

/// A shared borrow of a value a call borrows mutably is reported, and nothing
/// else changes.
pub proof fn lemma_shared_after_mutable_conflicts(
    cx: CxView,
    st: BorrowState,
    inner: BaseTyView,
    e: Expr,
    k: (bool, Seq<char>),
    span: (int, int),
)
    requires
        borrow_expr_spec(e) == Some((false, k, span)),
        base_accepts(inner, key_type_spec(cx, k)),
        !st.moved.contains(k),
        borrowed_mutably_spec(st.scopes, k),
    ensures
        ref_arg_spec(cx, st, false, inner, e) == add_diag(
            st,
            state_error_view(
                TypeView::Struct { name: ref_name(false, inner), start: span.0, end: span.1 },
                "mutably borrowed "@ + base_name(key_type_spec(cx, k)),
                span,
            ),
        ),
{
}

/// A moved value cannot be borrowed: the borrow is reported as of a moved value.
pub proof fn lemma_borrow_of_moved_reported(
    cx: CxView,
    st: BorrowState,
    mutable: bool,
    inner: BaseTyView,
    e: Expr,
    k: (bool, Seq<char>),
    span: (int, int),
)
    requires
        borrow_expr_spec(e) == Some((mutable, k, span)),
        base_accepts(inner, key_type_spec(cx, k)),
        st.moved.contains(k),
    ensures
        ref_arg_spec(cx, st, mutable, inner, e) == add_diag(
            st,
            state_error_view(
                TypeView::Struct { name: ref_name(mutable, inner), start: span.0, end: span.1 },
                "moved "@ + base_name(key_type_spec(cx, k)),
                span,
            ),
        ),
{
}

/// Assigning to a whole variable makes it usable again, whether or not it was
/// moved before.
pub proof fn lemma_assignment_revives_key(
    cx: CxView,
    st: BorrowState,
    name: Name,
    value: Expr,
    type_: Type,
    is_local: bool,
)
    requires
        name is Name,
    ensures
        !borrow_stmt_spec(cx, st, Stmt::SetVar { name, value, type_, is_local }).moved.contains(
            (false, name.spec_basename()),
        ),
{
}

/// A value moved in either branch of an `if` counts as moved after it.
pub proof fn lemma_branch_moves_join_keys(
    cx: CxView,
    st: BorrowState,
    cond: Expr,
    if_body: Vec<Stmt>,
    else_body: Vec<Stmt>,
)
    ensures
        ({
            let st1 = walk_spec(cx, st, cond);
            let st2 = borrow_stmts_spec(cx, st1, if_body@, if_body@.len() as int);
            let st3 = borrow_stmts_spec(
                cx,
                BorrowState { moved: st1.moved, scopes: st2.scopes, diags: st2.diags },
                else_body@,
                else_body@.len() as int,
            );
            borrow_stmt_spec(cx, st, Stmt::Branch { cond, if_body, else_body }).moved
                == st2.moved.union(st3.moved)
        }),
{
    let st1 = walk_spec(cx, st, cond);
    let st2 = borrow_stmts_spec(cx, st1, if_body@, if_body@.len() as int);
    let st3 = borrow_stmts_spec(
        cx,
        BorrowState { moved: st1.moved, scopes: st2.scopes, diags: st2.diags },
        else_body@,
        else_body@.len() as int,
    );
    assert(st3.moved.union(st2.moved) =~= st2.moved.union(st3.moved));
}

/// A parameter taken by reference cannot be moved out of: consuming it where an
/// owned value is required is reported, and it is not marked moved.
pub proof fn lemma_reference_parameter_not_moved(
    cx: CxView,
    st: BorrowState,
    name: Name,
    expected: BaseTyView,
)
    requires
        base_owned(expected),
        name matches Name::Name { name: n, .. } && decode_borrow_name_spec(n@) is None,
        arg_is_ref_spec(cx, name.spec_basename()),
    ensures
        ({
            let span = name.spec_span();
            mark_move_spec(cx, st, Expr::Arg(name), expected, None) == add_diag(
                st,
                state_error_view(
                    base_to_type(expected, span.0, span.1),
                    "borrowed parameter "@ + base_name(expected),
                    span,
                ),
            )
        }),
{
}


/// A value cannot be moved while a call borrows it: the move is reported and the
/// value is not marked moved.
pub proof fn lemma_move_while_borrowed_reported(
    cx: CxView,
    st: BorrowState,
    e: Expr,
    expected: BaseTyView,
    k: (bool, Seq<char>),
)
    requires
        base_owned(expected),
        move_source_spec(e) == Some(k),
        !(k.0 && arg_is_ref_spec(cx, k.1)),
        borrowed_any_spec(st.scopes, k),
    ensures
        ({
            let span = e.spec_span();
            mark_move_spec(cx, st, e, expected, None) == add_diag(
                st,
                state_error_view(
                    base_to_type(expected, span.0, span.1),
                    "borrowed "@ + base_name(expected),
                    span,
                ),
            )
        }),
{
}

/// A shared borrow cannot stand for a `&mut` parameter: it is reported as a
/// mismatch of reference types, and no borrow is taken.
pub proof fn lemma_shared_borrow_for_mutable_parameter(
    cx: CxView,
    st: BorrowState,
    inner: BaseTyView,
    e: Expr,
    k: (bool, Seq<char>),
    span: (int, int),
)
    requires
        borrow_expr_spec(e) == Some((false, k, span)),
    ensures
        ref_arg_spec(cx, st, true, inner, e) == add_diag(
            st,
            mismatch_view(
                TypeView::Struct { name: ref_name(true, inner), start: span.0, end: span.1 },
                TypeView::Struct {
                    name: ref_name(false, key_type_spec(cx, k)),
                    start: span.0,
                    end: span.1,
                },
                span,
            ),
        ),
{
}

/// A parameter received through a shared `&T` cannot be passed on mutably: the
/// borrow is reported, and no borrow is taken.
pub proof fn lemma_shared_parameter_not_borrowed_mutably(
    cx: CxView,
    st: BorrowState,
    inner: BaseTyView,
    e: Expr,
    name: Seq<char>,
    span: (int, int),
)
    requires
        borrow_expr_spec(e) == Some((true, (true, name), span)),
        base_accepts(inner, arg_type_spec(cx, name)),
        !st.moved.contains((true, name)),
        arg_ref_is_mutable_spec(cx, name) == Some(false),
    ensures
        ref_arg_spec(cx, st, true, inner, e) == add_diag(
            st,
            state_error_view(
                TypeView::Struct { name: ref_name(true, inner), start: span.0, end: span.1 },
                "immutably borrowed parameter "@ + base_name(arg_type_spec(cx, name)),
                span,
            ),
        ),
{
}

/// An argument that is not a borrow cannot stand for a reference parameter: it
/// is reported as a mismatch and then checked as an ordinary expression.
pub proof fn lemma_value_for_reference_parameter(
    cx: CxView,
    st: BorrowState,
    mutable: bool,
    inner: BaseTyView,
    e: Expr,
)
    requires
        borrow_expr_spec(e) is None,
    ensures
        ({
            let span = e.spec_span();
            let given = match move_source_spec(e) {
                Some(k) => key_type_spec(cx, k),
                None => BaseTyView::Dynamic,
            };
            ref_arg_spec(cx, st, mutable, inner, e) == walk_spec(
                cx,
                add_diag(
                    st,
                    mismatch_view(
                        TypeView::Struct { name: ref_name(mutable, inner), start: span.0, end: span.1 },
                        base_to_type(given, span.0, span.1),
                        span,
                    ),
                ),
                e,
            )
        }),
{
}


/// Borrow checking only adds diagnostics: what an entry held before stays at its front.
pub proof fn lemma_borrow_sprites_extend(project: &Project, ds: Seq<(String, SpriteDiagnostics)>, n: int)
    ensures
        forall|j: int|
            0 <= j < ds.len() ==> {
                let before = diagnostics_view((#[trigger] ds[j]).1.diagnostics@);
                let after = borrow_sprites_spec(project, ds, n)[j];
                before.len() <= after.len() && after.subrange(0, before.len() as int) == before
            },
    decreases n,
{
    lemma_borrow_sprites_len(project, ds, n);
    if n <= 0 || n > project.sprites.entries@.len() {
        assert forall|j: int| 0 <= j < ds.len() implies {
            let before = diagnostics_view((#[trigger] ds[j]).1.diagnostics@);
            let after = borrow_sprites_spec(project, ds, n)[j];
            before.len() <= after.len() && after.subrange(0, before.len() as int) == before
        } by {
            let before = diagnostics_view(ds[j].1.diagnostics@);
            assert(before.subrange(0, before.len() as int) =~= before);
        }
    } else {
        lemma_borrow_sprites_extend(project, ds, n - 1);
        lemma_borrow_sprites_len(project, ds, n - 1);
        assert forall|j: int| 0 <= j < ds.len() implies {
            let before = diagnostics_view((#[trigger] ds[j]).1.diagnostics@);
            let after = borrow_sprites_spec(project, ds, n)[j];
            before.len() <= after.len() && after.subrange(0, before.len() as int) == before
        } by {
            let before = diagnostics_view(ds[j].1.diagnostics@);
            let prev = borrow_sprites_spec(project, ds, n - 1);
            let after = borrow_sprites_spec(project, ds, n)[j];
            let entry = &project.sprites.entries@[n - 1];
            match find_in(ds, entry.0@, ds.len() as int) {
                Some(k) => {
                    lemma_find_in(ds, entry.0@, ds.len() as int);
                    if k == j {
                        assert(after.subrange(0, before.len() as int) =~= prev[j].subrange(
                            0,
                            before.len() as int,
                        ));
                    }
                },
                None => {},
            }
        }
    }
}

/// Each of the first `n` statements of `new` is the corresponding one of `old`,
/// unborrowed.
proof fn lemma_stmts_unborrowed_each(old: Seq<Stmt>, new: Seq<Stmt>, n: int)
    requires
        0 <= n <= old.len(),
        stmts_unborrowed(old, new, n),
    ensures
        old.len() == new.len(),
        forall|i: int| 0 <= i < n ==> stmt_unborrowed(#[trigger] old[i], new[i]),
    decreases n,
{
    if n > 0 {
        lemma_stmts_unborrowed_each(old, new, n - 1);
    }
}

/// Statement `new` has the shape of `old`: the same kind, the same target,
/// block, callee, span and local flag, and bodies and argument lists of the
/// same lengths.
pub open spec fn stmt_shape_kept(old: Stmt, new: Stmt) -> bool {
    match old {
        Stmt::Repeat { body, .. } => new matches Stmt::Repeat { body: b2, .. } && b2@.len()
            == body@.len(),
        Stmt::Forever { body, span } => new matches Stmt::Forever { body: b2, span: s2 } && s2
            == span && b2@.len() == body@.len(),
        Stmt::Branch { if_body, else_body, .. } => new matches Stmt::Branch {
            if_body: i2,
            else_body: e2,
            ..
        } && i2@.len() == if_body@.len() && e2@.len() == else_body@.len(),
        Stmt::Until { body, .. } => new matches Stmt::Until { body: b2, .. } && b2@.len()
            == body@.len(),
        Stmt::SetVar { name, type_, is_local, .. } => new matches Stmt::SetVar {
            name: n2,
            type_: t2,
            is_local: l2,
            ..
        } && n2 == name && t2 == type_ && l2 == is_local,
        Stmt::ChangeVar { name, .. } => new matches Stmt::ChangeVar { name: n2, .. } && n2 == name,
        Stmt::AddToList { name, .. } => new matches Stmt::AddToList { name: n2, .. } && n2 == name,
        Stmt::DeleteListIndex { name, .. } => new matches Stmt::DeleteListIndex { name: n2, .. }
            && n2 == name,
        Stmt::InsertAtList { name, .. } => new matches Stmt::InsertAtList { name: n2, .. } && n2
            == name,
        Stmt::SetListIndex { name, .. } => new matches Stmt::SetListIndex { name: n2, .. } && n2
            == name,
        Stmt::Block { block, span, args, kwargs } => new matches Stmt::Block {
            block: b2,
            span: s2,
            args: a2,
            kwargs: k2,
        } && b2 == block && s2 == span && a2@.len() == args@.len() && k2@.len() == kwargs@.len(),
        Stmt::ProcCall { name, span, args, kwargs } => new matches Stmt::ProcCall {
            name: n2,
            span: s2,
            args: a2,
            kwargs: k2,
        } && n2 == name && s2 == span && a2@.len() == args@.len() && k2@.len() == kwargs@.len(),
        Stmt::FuncCall { name, span, args, kwargs } => new matches Stmt::FuncCall {
            name: n2,
            span: s2,
            args: a2,
            kwargs: k2,
        } && n2 == name && s2 == span && a2@.len() == args@.len() && k2@.len() == kwargs@.len(),
        Stmt::Return { .. } => new is Return,
        _ => new == old,
    }
}

/// Removing the borrow encoding keeps the shape of a body: as many statements,
/// each of the same kind with the same target, callee and span; only names
/// inside expressions change.
pub proof fn lemma_unborrowing_keeps_shape(old: Seq<Stmt>, new: Seq<Stmt>)
    requires
        stmts_unborrowed(old, new, old.len() as int),
    ensures
        new.len() == old.len(),
        forall|i: int| 0 <= i < old.len() ==> stmt_shape_kept(#[trigger] old[i], new[i]),
{
    lemma_stmts_unborrowed_each(old, new, old.len() as int);
    assert forall|i: int| 0 <= i < old.len() implies stmt_shape_kept(#[trigger] old[i], new[i]) by {
        assert(stmt_unborrowed(old[i], new[i]));
        match old[i] {
            Stmt::Repeat { times, body } => {
                if let Stmt::Repeat { times: t2, body: b2 } = new[i] {
                    lemma_stmts_unborrowed_each(body@, b2@, body@.len() as int);
                }
            },
            Stmt::Forever { body, span } => {
                if let Stmt::Forever { body: b2, span: s2 } = new[i] {
                    lemma_stmts_unborrowed_each(body@, b2@, body@.len() as int);
                }
            },
            Stmt::Until { cond, body } => {
                if let Stmt::Until { cond: c2, body: b2 } = new[i] {
                    lemma_stmts_unborrowed_each(body@, b2@, body@.len() as int);
                }
            },
            Stmt::Branch { cond, if_body, else_body } => {
                if let Stmt::Branch { cond: c2, if_body: i2, else_body: e2 } = new[i] {
                    lemma_stmts_unborrowed_each(if_body@, i2@, if_body@.len() as int);
                    lemma_stmts_unborrowed_each(else_body@, e2@, else_body@.len() as int);
                }
            },
            Stmt::Block { block, span, args, kwargs } => {
                if let Stmt::Block { block: b2, span: s2, args: a2, kwargs: k2 } = new[i] {
                    lemma_exprs_unborrowed_len(args@, a2@, args@.len() as int);
                    lemma_kwargs_unborrowed_len(kwargs@, k2@, kwargs@.len() as int);
                }
            },
            Stmt::ProcCall { name, span, args, kwargs } => {
                if let Stmt::ProcCall { name: n2, span: s2, args: a2, kwargs: k2 } = new[i] {
                    lemma_exprs_unborrowed_len(args@, a2@, args@.len() as int);
                    lemma_kwargs_unborrowed_len(kwargs@, k2@, kwargs@.len() as int);
                }
            },
            Stmt::FuncCall { name, span, args, kwargs } => {
                if let Stmt::FuncCall { name: n2, span: s2, args: a2, kwargs: k2 } = new[i] {
                    lemma_exprs_unborrowed_len(args@, a2@, args@.len() as int);
                    lemma_kwargs_unborrowed_len(kwargs@, k2@, kwargs@.len() as int);
                }
            },
            _ => {},
        }
    }
}

proof fn lemma_exprs_unborrowed_len(old: Seq<Expr>, new: Seq<Expr>, n: int)
    requires
        0 <= n <= old.len(),
        exprs_unborrowed(old, new, n),
    ensures
        old.len() == new.len(),
    decreases n,
{
    if n > 0 {
        lemma_exprs_unborrowed_len(old, new, n - 1);
    }
}

proof fn lemma_kwargs_unborrowed_len(old: Seq<Kwarg>, new: Seq<Kwarg>, n: int)
    requires
        0 <= n <= old.len(),
        kwargs_unborrowed(old, new, n),
    ensures
        old.len() == new.len(),
    decreases n,
{
    if n > 0 {
        lemma_kwargs_unborrowed_len(old, new, n - 1);
    }
}

/// Removing the borrow encoding twice is removing it once, for a name whose
/// borrowed name does not itself spell a borrow: the second pass leaves the
/// name's text and span as the first left them.
pub proof fn lemma_unborrowing_twice_name(a: Name, b: Name, c: Name)
    requires
        name_unborrowed(a, b),
        name_unborrowed(b, c),
        a matches Name::Name { name, .. } ==> match decode_borrow_name_spec(name@) {
            Some((_, x)) => !has_prefix(x, borrow_prefix()),
            None => true,
        },
    ensures
        c.spec_span() == b.spec_span(),
        b matches Name::Name { name: nb, .. } ==> c matches Name::Name { name: nc, .. } && nc@
            == nb@,
        b is DotName ==> c == b,
{
}

/// Removing the reference encoding twice is removing it once, for a parameter
/// whose own name does not itself spell a reference parameter: the second pass
/// leaves the parameter as the first left it.
pub proof fn lemma_unborrowing_twice_arg(a: Arg, b: Arg, c: Arg)
    requires
        arg_unborrowed(a, b),
        arg_unborrowed(b, c),
        match decode_ref_arg_spec(a.name@) {
            Some((_, _, l)) => !has_prefix(l, ref_arg_prefix()),
            None => true,
        },
    ensures
        c == b,
{
}

/// A sprite whose name has no entry in the diagnostics table is not checked: it
/// adds no diagnostic to any entry.
pub proof fn lemma_unknown_sprite_skipped(project: &Project, ds: Seq<(String, SpriteDiagnostics)>, n: int)
    requires
        0 < n <= project.sprites.entries@.len(),
        find_in(ds, project.sprites.entries@[n - 1].0@, ds.len() as int) is None,
    ensures
        borrow_sprites_spec(project, ds, n) == borrow_sprites_spec(project, ds, n - 1),
{
}

/// Reading a variable or parameter while an open borrow scope of the current
/// call holds it mutably adds exactly one diagnostic at the read: a type
/// mismatch whose given state reads `mutably borrowed ...`. Nothing else of the
/// state changes.
pub proof fn lemma_read_of_mutably_borrowed_reported(
    cx: CxView,
    st: BorrowState,
    k: (bool, Seq<char>),
    span: (int, int),
    i: int,
)
    requires
        0 <= i < st.scopes.len(),
        st.scopes[i].mutable.contains(k),
    ensures
        ({
            let r = check_read_spec(cx, st, k, span);
            &&& r.moved == st.moved
            &&& r.scopes == st.scopes
            &&& r.diags.len() == st.diags.len() + 1
            &&& r.diags.take(st.diags.len() as int) == st.diags
            &&& r.diags.last() matches DiagnosticView {
                kind: DiagnosticKindView::TypeMismatch {
                    given: TypeView::Struct { name, .. },
                    ..
                },
                start,
                end,
            } && has_prefix(name, "mutably borrowed "@) && start == span.0 && end == span.1
        }),
{
    let r = check_read_spec(cx, st, k, span);
    assert(r.diags.take(st.diags.len() as int) =~= st.diags);
    let t = key_type_spec(cx, k);
    let p = "mutably borrowed "@;
    assert((p + base_name(t)).take(p.len() as int) =~= p);
}

/// Reading a variable or parameter that no open borrow scope holds mutably
/// changes nothing.
pub proof fn lemma_read_of_unborrowed_silent(
    cx: CxView,
    st: BorrowState,
    k: (bool, Seq<char>),
    span: (int, int),
)
    requires
        forall|i: int| 0 <= i < st.scopes.len() ==> !(#[trigger] st.scopes[i]).mutable.contains(k),
    ensures
        check_read_spec(cx, st, k, span) == st,
{
}

/// Naming a variable in an expression while the call it stands in borrows that
/// variable mutably is reported once, at the name.
pub proof fn lemma_name_read_while_mutably_borrowed(
    cx: CxView,
    st: BorrowState,
    name: Name,
    i: int,
)
    requires
        name matches Name::Name { name: n, .. } && decode_borrow_name_spec(n@) is None,
        0 <= i < st.scopes.len(),
        st.scopes[i].mutable.contains((false, name.spec_basename())),
    ensures
        walk_spec(cx, st, Expr::Name(name)) == check_read_spec(
            cx,
            st,
            (false, name.spec_basename()),
            name.spec_span(),
        ),
        walk_spec(cx, st, Expr::Name(name)).diags.len() == st.diags.len() + 1,
{
    lemma_read_of_mutably_borrowed_reported(
        cx,
        st,
        (false, name.spec_basename()),
        name.spec_span(),
        i,
    );
}

} // verus!
