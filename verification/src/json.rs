//! A JSON value as plain data, and the cut of its localized texts to one
//! language.

use vstd::prelude::*;
use crate::names::str_eq;

verus! {

/// A JSON value; a number is kept as the text it was written with.
#[derive(Debug, PartialEq)]
pub enum JsonValue {
    Null,
    Bool(bool),
    Number(String),
    Str(String),
    Array(Vec<JsonValue>),
    Object(Vec<(String, JsonValue)>),
}

/// What a JSON value holds, as mathematical values.
pub enum JsonView {
    Null,
    Bool(bool),
    Number(Seq<char>),
    Str(Seq<char>),
    Array(Seq<JsonView>),
    Object(Seq<(Seq<char>, JsonView)>),
}

pub open spec fn jview(v: JsonValue) -> JsonView
    decreases v,
{
    match v {
        JsonValue::Null => JsonView::Null,
        JsonValue::Bool(b) => JsonView::Bool(b),
        JsonValue::Number(s) => JsonView::Number(s@),
        JsonValue::Str(s) => JsonView::Str(s@),
        JsonValue::Array(xs) => {
            proof {
                assert forall|i: int| 0 <= i < xs@.len() implies #[trigger] decreases_to!(v => xs@[i]) by {
                    assert(decreases_to!(xs => xs@));
                    assert(decreases_to!(xs@ => xs@[i]));
                }
            }
            JsonView::Array(Seq::new(xs@.len(), |i: int| if 0 <= i < xs@.len() { jview(xs@[i]) } else { JsonView::Null }))
        },
        JsonValue::Object(es) => {
            proof {
                assert forall|i: int| 0 <= i < es@.len() implies #[trigger] decreases_to!(v => es@[i].1) by {
                    assert(decreases_to!(es => es@));
                    assert(decreases_to!(es@ => es@[i]));
                    assert(decreases_to!(es@[i] => es@[i].1));
                }
            }
            JsonView::Object(Seq::new(es@.len(), |i: int| if 0 <= i < es@.len() { (es@[i].0@, jview(es@[i].1)) } else { (Seq::empty(), JsonView::Null) }))
        },
    }
}


/// A key the SDE localizes text under: one of its eight language codes.
pub open spec fn is_lang_code(k: Seq<char>) -> bool {
    k == "en"@ || k == "de"@ || k == "es"@ || k == "fr"@ || k == "ja"@ || k == "ko"@ || k == "ru"@ || k == "zh"@
}

/// An object is a localized text: it has entries, an English one among them,
/// and every key is a language code.
pub open spec fn is_localized(es: Seq<(Seq<char>, JsonView)>) -> bool {
    &&& es.len() > 0
    &&& exists|i: int| 0 <= i < es.len() && #[trigger] es[i].0 == "en"@
    &&& forall|i: int| 0 <= i < es.len() ==> is_lang_code(#[trigger] es[i].0)
}

/// The value of the first entry under key `k`.
pub open spec fn lookup(es: Seq<(Seq<char>, JsonView)>, k: Seq<char>) -> Option<JsonView>
    decreases es.len(),
{
    if es.len() == 0 {
        None
    } else if es[0].0 == k {
        Some(es[0].1)
    } else {
        lookup(es.drop_first(), k)
    }
}

/// `v` with every localized text cut to `lang`: its `lang` entry, else its
/// English one; every other object and array is cut member by member.
pub open spec fn filtered(v: JsonView, lang: Seq<char>) -> JsonView
    decreases v,
{
    match v {
        JsonView::Object(es) => {
            if is_localized(es) {
                match lookup(es, lang) {
                    Some(x) => x,
                    None => match lookup(es, "en"@) {
                        Some(x) => x,
                        None => JsonView::Null,
                    },
                }
            } else {
                proof {
                    assert forall|i: int| 0 <= i < es.len() implies #[trigger] decreases_to!(v => es[i].1) by {
                        assert(decreases_to!(es => es[i]));
                        assert(decreases_to!(es[i] => es[i].1));
                    }
                }
                JsonView::Object(Seq::new(es.len(), |i: int| if 0 <= i < es.len() { (es[i].0, filtered(es[i].1, lang)) } else { (Seq::empty(), JsonView::Null) }))
            }
        },
        JsonView::Array(xs) => {
            proof {
                assert forall|i: int| 0 <= i < xs.len() implies #[trigger] decreases_to!(v => xs[i]) by {
                    assert(decreases_to!(xs => xs[i]));
                }
            }
            JsonView::Array(Seq::new(xs.len(), |i: int| if 0 <= i < xs.len() { filtered(xs[i], lang) } else { JsonView::Null }))
        },
        _ => v,
    }
}

fn is_lang_code_exec(k: &str) -> (b: bool)
    ensures
        b == is_lang_code(k@),
{
    str_eq(k, "en") || str_eq(k, "de") || str_eq(k, "es") || str_eq(k, "fr") || str_eq(k, "ja")
        || str_eq(k, "ko") || str_eq(k, "ru") || str_eq(k, "zh")
}

/// The entries of an object, viewed.
pub open spec fn entries_view(es: Seq<(String, JsonValue)>) -> Seq<(Seq<char>, JsonView)> {
    Seq::new(es.len(), |i: int| (es[i].0@, jview(es[i].1)))
}

/// The index of the first entry under key `k`.
fn find_key(es: &Vec<(String, JsonValue)>, k: &str) -> (r: Option<usize>)
    ensures
        match r {
            Some(i) => i < es@.len() && lookup(entries_view(es@), k@) == Some(jview(es@[i as int].1)),
            None => lookup(entries_view(es@), k@) is None,
        },
{
    let mut i: usize = 0;
    assert(entries_view(es@).skip(0) =~= entries_view(es@));
    while i < es.len()
        invariant
            0 <= i <= es@.len(),
            lookup(entries_view(es@), k@) == lookup(entries_view(es@).skip(i as int), k@),
        decreases es@.len() - i,
    {
        let ghost rest = entries_view(es@).skip(i as int);
        assert(rest.drop_first() =~= entries_view(es@).skip(i + 1));
        if str_eq(es[i].0.as_str(), k) {
            return Some(i);
        }
        i = i + 1;
    }
    None
}

/// Whether an object's entries make a localized text.
fn localized_exec(es: &Vec<(String, JsonValue)>) -> (b: bool)
    ensures
        b == is_localized(entries_view(es@)),
{
    if es.len() == 0 {
        return false;
    }
    let mut has_en = false;
    let mut i: usize = 0;
    while i < es.len()
        invariant
            0 <= i <= es@.len(),
            has_en == exists|j: int| 0 <= j < i && #[trigger] entries_view(es@)[j].0 == "en"@,
            forall|j: int| 0 <= j < i ==> is_lang_code(#[trigger] entries_view(es@)[j].0),
        decreases es@.len() - i,
    {
        let k = es[i].0.as_str();
        assert(entries_view(es@)[i as int].0 == k@);
        if !is_lang_code_exec(k) {
            return false;
        }
        if str_eq(k, "en") {
            has_en = true;
        }
        i = i + 1;
    }
    has_en
}

/// Cuts every localized text in `v` to `lang`: an object whose keys are all
/// language codes, English among them, becomes its `lang` entry (else its
/// English one); other objects and arrays are cut member by member.
pub fn filter_language(v: JsonValue, lang: &str) -> (r: JsonValue)
    ensures
        jview(r) == filtered(jview(v), lang@),
    decreases v,
{
    let ghost v0 = v;
    match v {
        JsonValue::Object(es) => {
            let ghost ev = entries_view(es@);
            assert(jview(v0)->Object_0 =~= ev);
            assert(jview(v0) == JsonView::Object(ev));
            if localized_exec(&es) {
                let mut es = es;
                match find_key(&es, lang) {
                    Some(i) => {
                        let (_, x) = es.remove(i);
                        x
                    },
                    None => match find_key(&es, "en") {
                        Some(i) => {
                            let (_, x) = es.remove(i);
                            x
                        },
                        None => JsonValue::Null,
                    },
                }
            } else {
                let ghost es0 = es;
                let ghost all = es@;
                let mut rest = es;
                let mut out: Vec<(String, JsonValue)> = Vec::new();
                let total = rest.len();
                let mut i: usize = 0;
                while rest.len() > 0
                    invariant
                        total == all.len(),
                        0 <= i <= all.len(),
                        rest@ == all.skip(i as int),
                        v0 == v,
                        v0 == JsonValue::Object(es0),
                        all == es0@,
                        ev == entries_view(all),
                        out@.len() == i,
                        forall|j: int| 0 <= j < i ==> (#[trigger] out@[j]).0@ == all[j].0@
                            && jview(out@[j].1) == filtered(jview(all[j].1), lang@),
                    decreases rest@.len(),
                {
                    let (k, x) = rest.remove(0);
                    assert((k, x) == all[i as int]);
                    assert(rest@ =~= all.skip(i + 1));
                    proof {
                        assert(decreases_to!(v0 => v0->Object_0));
                        assert(decreases_to!(es0 => es0@));
                        assert(decreases_to!(es0@ => es0@[i as int]));
                        assert(decreases_to!(es0@[i as int] => es0@[i as int].1));
                        assert(decreases_to!(v0 => x));
                    }
                    let fx = filter_language(x, lang);
                    out.push((k, fx));
                    i = i + 1;
                }
                let r = JsonValue::Object(out);
                assert(jview(r)->Object_0 =~= filtered(jview(v0), lang@)->Object_0);
                r
            }
        },
        JsonValue::Array(xs) => {
            let ghost xs0 = xs;
            let ghost all = xs@;
            let mut rest = xs;
            let mut out: Vec<JsonValue> = Vec::new();
            let total = rest.len();
            let mut i: usize = 0;
            while rest.len() > 0
                invariant
                    total == all.len(),
                    0 <= i <= all.len(),
                    rest@ == all.skip(i as int),
                    v0 == v,
                    v0 == JsonValue::Array(xs0),
                    all == xs0@,
                    out@.len() == i,
                    forall|j: int| 0 <= j < i ==> jview(#[trigger] out@[j]) == filtered(jview(all[j]), lang@),
                decreases rest@.len(),
            {
                let x = rest.remove(0);
                assert(x == all[i as int]);
                assert(rest@ =~= all.skip(i + 1));
                proof {
                    assert(decreases_to!(v0 => v0->Array_0));
                    assert(decreases_to!(xs0 => xs0@));
                    assert(decreases_to!(xs0@ => xs0@[i as int]));
                    assert(decreases_to!(v0 => x));
                }
                let fx = filter_language(x, lang);
                out.push(fx);
                i = i + 1;
            }
            let r = JsonValue::Array(out);
            assert(jview(r)->Array_0 =~= filtered(jview(v0), lang@)->Array_0);
            r
        },
        other => other,
    }
}

/// Cuts every localized text in `v`, in place, to `lang`.
pub fn apply_language_filter(v: &mut JsonValue, lang: &str)
    ensures
        jview(*final(v)) == filtered(jview(*old(v)), lang@),
{
    let mut taken = JsonValue::Null;
    std::mem::swap(&mut taken, v);
    *v = filter_language(taken, lang);
}

} // verus!
