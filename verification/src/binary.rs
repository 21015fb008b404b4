//! Imports of a Windows PE executable that point at network or registry libraries, given
//! as (library, symbol) pairs.
use vstd::prelude::*;
use crate::text::{chars_of, contains_chars, occurs_in};

verus! {

/// A library is suspicious when its name holds `wininet` or `advapi32`.
pub open spec fn suspicious_dll(dll: Seq<char>) -> bool {
    occurs_in(dll, "wininet"@) || occurs_in(dll, "advapi32"@)
}

/// The imports from suspicious libraries, in order.
pub open spec fn suspicious(imports: Seq<(Seq<char>, Seq<char>)>) -> Seq<(Seq<char>, Seq<char>)>
    decreases imports.len(),
{
    if imports.len() == 0 {
        Seq::<(Seq<char>, Seq<char>)>::empty()
    } else {
        let rest = suspicious(imports.drop_last());
        if suspicious_dll(imports.last().0) {
            rest.push(imports.last())
        } else {
            rest
        }
    }
}

/// Whether a library name holds `wininet` or `advapi32`.
pub fn is_suspicious_dll(dll: &str) -> (res: bool)
    ensures
        res == suspicious_dll(dll@),
{
    let name = chars_of(dll);
    let wininet = chars_of("wininet");
    let advapi = chars_of("advapi32");
    contains_chars(name.as_slice(), wininet.as_slice()) || contains_chars(
        name.as_slice(),
        advapi.as_slice(),
    )
}

/// The imports from suspicious libraries, in order.
pub fn suspicious_imports(imports: &Vec<(String, String)>) -> (res: Vec<(String, String)>)
    ensures
        res.deep_view() == suspicious(imports.deep_view()),
{
    let ghost iv = imports.deep_view();
    let mut out: Vec<(String, String)> = Vec::new();
    let n = imports.len();
    let mut i: usize = 0;
    assert(iv.take(0) =~= Seq::<(Seq<char>, Seq<char>)>::empty());
    while i < n
        invariant
            i <= n == imports@.len(),
            iv == imports.deep_view(),
            out.deep_view() == suspicious(iv.take(i as int)),
        decreases n - i,
    {
        assert(iv.take(i + 1).drop_last() =~= iv.take(i as int));
        if is_suspicious_dll(imports[i].0.as_str()) {
            let ghost before = out.deep_view();
            out.push((imports[i].0.clone(), imports[i].1.clone()));
            assert(out.deep_view() =~= before.push(iv[i as int]));
        }
        i = i + 1;
    }
    assert(iv.take(n as int) =~= iv);
    out
}

} // verus!
