//! The library's laws: proofs that the builder's operations keep the two
//! buffers and the style table synchronized, stated over the document model
//! that the operations' contracts use.

use vstd::prelude::*;

use crate::builder::contains_style;
use crate::builder::intern_fits;
use crate::builder::intern_symbol;
use crate::builder::intern_table;
use crate::builder::lemma_intern_stable;
use crate::builder::lemma_style_position;
use crate::builder::spec_append;
use crate::builder::spec_replace_first;
use crate::builder::style_position;
use crate::search::first_match;
use crate::search::lemma_first_match_from_is_match;
use crate::search::sym_run;
use crate::builder::valid_symbol;
use crate::builder::wf_doc;
use crate::builder::DocModel;
use crate::style::Style;
use crate::style::MAX_STYLES;
use crate::style::STYLE_SYMBOL_BASE;

verus! {

/// Appending never desynchronizes a document. However many appends are
/// chained, each step keeps the style-index buffer exactly as long as the
/// text buffer, leaves the earlier content of both buffers and the earlier
/// table entries untouched, and writes a run whose every symbol names a
/// live table entry — the entry holding the requested record, when one was
/// requested.
pub proof fn lemma_append_run_maps_back(d: DocModel, bytes: Seq<u8>, style: Option<Style>)
    requires
        wf_doc(d),
        intern_fits(d.table, style),
    ensures
        ({
            let d2 = spec_append(d, bytes, style);
            &&& wf_doc(d2)
            &&& d2.style_index.len() == d2.text.len()
            &&& d2.text == d.text + bytes
            &&& d.table.is_prefix_of(d2.table)
            &&& d2.style_index.subrange(0, d.style_index.len() as int) == d.style_index
            &&& forall|i: int|
                d.text.len() <= i < d2.text.len() ==> valid_symbol(
                    #[trigger] d2.style_index[i],
                    d2.table.len(),
                )
            &&& (style matches Some(s) ==> forall|i: int|
                d.text.len() <= i < d2.text.len() ==> d2.table[#[trigger] d2.style_index[i]
                    - STYLE_SYMBOL_BASE] == s)
        }),
{
    let d2 = spec_append(d, bytes, style);
    let sym = intern_symbol(d.table, style);
    lemma_intern_stable(d.table, d.default_style, style);
    assert(d2.style_index.subrange(0, d.style_index.len() as int) =~= d.style_index);
    match style {
        Option::None => {
            assert(valid_symbol(sym, d2.table.len()));
        },
        Option::Some(s) => {
            lemma_style_position(d.table, s);
            let p = style_position(d.table, s);
            if contains_style(d.table, s) {
                assert(d.table[p] == s);
            } else {
                assert(d2.table == d.table.push(s));
                assert(d2.table[p] == s);
            }
            assert(valid_symbol(sym, d2.table.len()));
            assert(d2.table[sym - STYLE_SYMBOL_BASE] == s);
        },
    }
    assert forall|i: int|
        0 <= i < d2.style_index.len() implies valid_symbol(
        #[trigger] d2.style_index[i],
        d2.table.len(),
    ) by {
        if i < d.style_index.len() {
            assert(valid_symbol(d.style_index[i], d.table.len()));
        } else {
            assert(d2.style_index[i] == sym);
        }
    }
}

/// Interning is idempotent under value equality: once a record is in the
/// table, interning an equal record yields the very same symbol and leaves
/// the table as it is — so any number of interns of equal records grows the
/// table by at most one entry in total.
pub proof fn lemma_intern_idempotent(table: Seq<Style>, default: Style, s: Style)
    requires
        contains_style(table, s) || table.len() < MAX_STYLES,
    ensures
        ({
            let t1 = intern_table(table, default, Some(s));
            &&& table.len() <= t1.len() <= table.len() + 1
            &&& contains_style(t1, s)
            &&& intern_table(t1, default, Some(s)) == t1
            &&& intern_symbol(t1, Some(s)) == intern_symbol(table, Some(s))
        }),
{
    lemma_intern_stable(table, default, Some(s));
}

/// The document after a whole sequence of appends, each fragment paired
/// with its requested style.
pub open spec fn spec_append_all(d: DocModel, frags: Seq<(Seq<u8>, Option<Style>)>) -> DocModel
    decreases frags.len(),
{
    if frags.len() == 0 {
        d
    } else {
        spec_append_all(spec_append(d, frags[0].0, frags[0].1), frags.drop_first())
    }
}

/// Every style of the sequence fits when its turn comes.
pub open spec fn appends_fit(d: DocModel, frags: Seq<(Seq<u8>, Option<Style>)>) -> bool
    decreases frags.len(),
{
    frags.len() == 0 || (intern_fits(d.table, frags[0].1) && appends_fit(
        spec_append(d, frags[0].0, frags[0].1),
        frags.drop_first(),
    ))
}

/// For every sequence of append calls: the document stays well formed, the
/// style-index buffer stays exactly as long as the text buffer, and the
/// earlier content of both buffers and the earlier table entries survive
/// untouched — so the symbols of every earlier run keep naming the very
/// records they were given, while each new run's mapping is
/// [`lemma_append_run_maps_back`].
pub proof fn lemma_append_all_in_lockstep(d: DocModel, frags: Seq<(Seq<u8>, Option<Style>)>)
    requires
        wf_doc(d),
        appends_fit(d, frags),
    ensures
        ({
            let d2 = spec_append_all(d, frags);
            &&& wf_doc(d2)
            &&& d2.style_index.len() == d2.text.len()
            &&& d.table.is_prefix_of(d2.table)
            &&& d.text.is_prefix_of(d2.text)
            &&& d2.style_index.subrange(0, d.style_index.len() as int) == d.style_index
        }),
    decreases frags.len(),
{
    let d2 = spec_append_all(d, frags);
    if frags.len() == 0 {
        assert(d.table =~= d2.table.subrange(0, d.table.len() as int));
        assert(d.text =~= d2.text.subrange(0, d.text.len() as int));
        assert(d2.style_index.subrange(0, d.style_index.len() as int) =~= d.style_index);
    } else {
        let d1 = spec_append(d, frags[0].0, frags[0].1);
        lemma_append_run_maps_back(d, frags[0].0, frags[0].1);
        lemma_append_all_in_lockstep(d1, frags.drop_first());
        assert(d.table =~= d2.table.subrange(0, d.table.len() as int));
        assert(d.text =~= d1.text.subrange(0, d.text.len() as int));
        assert(d.text =~= d2.text.subrange(0, d.text.len() as int));
        assert(d2.style_index.subrange(0, d.style_index.len() as int) =~= d.style_index);
    }
}

/// Replacing the first occurrence of a pattern keeps the two buffers in
/// lockstep and restyles exactly the replaced span: the text is spliced at
/// the first match, the style-index buffer keeps its earlier symbols
/// before the span and carries the interned symbol across it, and that
/// symbol names the table entry holding the requested record. On a
/// document holding exactly one occurrence, this is the whole effect.
pub proof fn lemma_replace_first_splices_styled_run(
    d: DocModel,
    oldb: Seq<u8>,
    newb: Seq<u8>,
    style: Option<Style>,
)
    requires
        wf_doc(d),
        intern_fits(d.table, style),
        first_match(d.text, oldb) >= 0,
    ensures
        ({
            let p = first_match(d.text, oldb);
            let d2 = spec_replace_first(d, oldb, newb, style);
            let sym = intern_symbol(d.table, style);
            &&& d2.text == d.text.subrange(0, p) + newb + d.text.subrange(
                p + oldb.len() as int,
                d.text.len() as int,
            )
            &&& d2.style_index.len() == d2.text.len()
            &&& forall|i: int| 0 <= i < p ==> d2.style_index[i] == d.style_index[i]
            &&& forall|i: int| p <= i < p + newb.len() ==> d2.style_index[i] == sym
            &&& valid_symbol(sym, d2.table.len())
            &&& (style matches Some(s) ==> d2.table[sym - STYLE_SYMBOL_BASE] == s)
        }),
{
    let p = first_match(d.text, oldb);
    lemma_first_match_from_is_match(d.text, oldb, 0);
    lemma_intern_stable(d.table, d.default_style, style);
    let d2 = spec_replace_first(d, oldb, newb, style);
    let sym = intern_symbol(d.table, style);
    match style {
        Option::None => {
            assert(valid_symbol(sym, d2.table.len()));
        },
        Option::Some(s) => {
            lemma_style_position(d.table, s);
            let q = style_position(d.table, s);
            if contains_style(d.table, s) {
                assert(d.table[q] == s);
            } else {
                assert(d2.table == d.table.push(s));
                assert(d2.table[q] == s);
            }
            assert(valid_symbol(sym, d2.table.len()));
            assert(d2.table[sym - STYLE_SYMBOL_BASE] == s);
        },
    }
    assert forall|i: int| 0 <= i < p implies d2.style_index[i] == d.style_index[i] by {
        assert(d2.style_index[i] == d.style_index.subrange(0, p)[i]);
    }
    assert forall|i: int| p <= i < p + newb.len() implies d2.style_index[i] == sym by {
        assert(d2.style_index[i] == sym_run(sym, newb.len())[i - p]);
    }
}

/// However many fragments are appended under one and the same style
/// record — or under records pairwise equal to it by value — the style
/// table grows by at most one entry in total: the first append interns the
/// record, and every later one finds it.
pub proof fn lemma_append_same_style_grows_once(
    d: DocModel,
    frags: Seq<(Seq<u8>, Option<Style>)>,
    s: Style,
)
    requires
        contains_style(d.table, s) || d.table.len() < MAX_STYLES,
        forall|k: int| 0 <= k < frags.len() ==> (#[trigger] frags[k]).1 == Some(s),
        frags.len() >= 1,
    ensures
        appends_fit(d, frags),
        spec_append_all(d, frags).table == intern_table(d.table, d.default_style, Some(s)),
        spec_append_all(d, frags).table.len() <= d.table.len() + 1,
    decreases frags.len(),
{
    lemma_intern_stable(d.table, d.default_style, Some(s));
    let d1 = spec_append(d, frags[0].0, frags[0].1);
    assert(frags[0].1 == Some(s));
    if frags.len() == 1 {
        assert(spec_append_all(d1, frags.drop_first()) == d1);
        assert(appends_fit(d1, frags.drop_first()));
    } else {
        assert(forall|k: int|
            0 <= k < frags.drop_first().len() ==> (#[trigger] frags.drop_first()[k]).1 == Some(
                s,
            )) by {
            assert forall|k: int|
                0 <= k < frags.drop_first().len() implies (#[trigger] frags.drop_first()[k]).1
                == Some(s) by {
                assert(frags.drop_first()[k] == frags[k + 1]);
            }
        }
        lemma_append_same_style_grows_once(d1, frags.drop_first(), s);
    }
}

/// The table after interning the record `s` another `n` times.
pub open spec fn intern_n(table: Seq<Style>, default: Style, s: Style, n: nat) -> Seq<Style>
    decreases n,
{
    if n == 0 {
        table
    } else {
        intern_table(intern_n(table, default, s, (n - 1) as nat), default, Some(s))
    }
}

/// Interning the same record any number of times grows the table exactly
/// as interning it once does — by at most one entry in total.
pub proof fn lemma_intern_n_idempotent(table: Seq<Style>, default: Style, s: Style, n: nat)
    requires
        contains_style(table, s) || table.len() < MAX_STYLES,
        n >= 1,
    ensures
        intern_n(table, default, s, n) == intern_table(table, default, Some(s)),
        intern_n(table, default, s, n).len() <= table.len() + 1,
    decreases n,
{
    lemma_intern_stable(table, default, Some(s));
    assert(intern_n(table, default, s, 0) == table);
    if n > 1 {
        lemma_intern_n_idempotent(table, default, s, (n - 1) as nat);
    }
}

/// In a well-formed document the style table holds no duplicate records:
/// its size is exactly the number of distinct records interned so far, and
/// every symbol in the style-index buffer names one of them.
pub proof fn lemma_table_size_is_distinct_count(d: DocModel)
    requires
        wf_doc(d),
    ensures
        d.table.no_duplicates(),
        forall|i: int|
            0 <= i < d.style_index.len() ==> valid_symbol(
                #[trigger] d.style_index[i],
                d.table.len(),
            ),
{
    assert forall|i: int, j: int|
        0 <= i < d.table.len() && 0 <= j < d.table.len() && i != j implies d.table[i]
        != d.table[j] by {
        if j < i {
            assert(d.table[j] != d.table[i]);
        }
    }
}

} // verus!
