//! The styled-document builder: a text buffer, a parallel style-index buffer
//! of equal length, and a deduplicated table of style records. Every byte of
//! the text buffer is covered by one symbol of the style-index buffer, and
//! every symbol names a live entry of the table.

use vstd::prelude::*;
use vstd::string::StrSliceExecFns;
use vstd::string::StringSliceAdditionalSpecFns;

use crate::search::count_byte;
use crate::search::find_from;
use crate::search::first_match;
use crate::search::first_match_from;
use crate::search::lemma_count_byte_concat;
use crate::search::lemma_count_byte_splice;
use crate::search::lemma_count_byte_zero;
use crate::search::lemma_first_match_from_exists;
use crate::search::lemma_first_match_from_found;
use crate::search::lemma_first_match_from_is_match;
use crate::search::lemma_first_match_from_none;
use crate::search::lemma_single_byte_match;
use crate::search::lemma_subst_styled_concat;
use crate::search::lemma_subst_styled_no_hit;
use crate::search::lemma_subst_text_concat;
use crate::search::lemma_subst_text_no_hit;
use crate::search::match_at;
use crate::search::push_range;
use crate::search::push_run;
use crate::search::splice_bytes;
use crate::search::splice_run;
use crate::search::subst_styled;
use crate::search::subst_text;
use crate::search::sym_run;
use crate::style::Style;
use crate::style::TableOverflow;
use crate::style::MAX_STYLES;
use crate::style::STYLE_SYMBOL_BASE;

verus! {

/// The mathematical content of a builder: the two parallel buffers, the
/// style table, and the record that reseeds the table after a clear.
#[verifier::ext_equal]
pub ghost struct DocModel {
    /// The document text, as its byte sequence.
    pub text: Seq<u8>,
    /// One symbol per text byte; symbol `STYLE_SYMBOL_BASE + i` names table
    /// entry `i`.
    pub style_index: Seq<u8>,
    /// The style table: insertion-ordered, duplicate-free.
    pub table: Seq<Style>,
    /// The record interned when no explicit style is given and the table is
    /// empty.
    pub default_style: Style,
}

/// The byte `b` is a symbol naming a valid index of a table of length `n`.
pub open spec fn valid_symbol(b: u8, n: nat) -> bool {
    STYLE_SYMBOL_BASE <= b && (b as int) < STYLE_SYMBOL_BASE + n
}

/// Well-formedness of a document: the two buffers have equal length, the
/// table fits the symbol alphabet and holds no duplicate records, and every
/// symbol of the style-index buffer names a live table entry.
pub open spec fn wf_doc(d: DocModel) -> bool {
    &&& d.style_index.len() == d.text.len()
    &&& d.table.len() <= MAX_STYLES
    &&& forall|i: int|
        0 <= i < d.style_index.len() ==> valid_symbol(#[trigger] d.style_index[i], d.table.len())
    &&& forall|i: int, j: int|
        0 <= i < j < d.table.len() ==> d.table[i] != d.table[j]
}

/// The table holds a record equal to `s` by value.
pub open spec fn contains_style(table: Seq<Style>, s: Style) -> bool {
    exists|i: int| 0 <= i < table.len() && table[i] == s
}

/// Index of the first record equal to `s` at or after `i`, or the table
/// length if there is none.
pub open spec fn style_position_from(table: Seq<Style>, s: Style, i: int) -> int
    decreases table.len() - i,
{
    if i < 0 || i >= table.len() {
        table.len() as int
    } else if table[i] == s {
        i
    } else {
        style_position_from(table, s, i + 1)
    }
}

/// Index of the first record equal to `s`, or the table length if there is
/// none: the symbol that interning `s` yields.
pub open spec fn style_position(table: Seq<Style>, s: Style) -> int {
    style_position_from(table, s, 0)
}

/// Interning succeeds: either the record is already present, or the table
/// still has room. Interning "no style" always succeeds.
pub open spec fn intern_fits(table: Seq<Style>, style: Option<Style>) -> bool {
    match style {
        Option::None => true,
        Option::Some(s) => contains_style(table, s) || table.len() < MAX_STYLES,
    }
}

/// The table after interning: unchanged when the record is already present
/// (or the table is full), extended by the record otherwise. Interning "no
/// style" reseeds an empty table with the default record.
pub open spec fn intern_table(table: Seq<Style>, default: Style, style: Option<Style>) -> Seq<
    Style,
> {
    match style {
        Option::None => if table.len() == 0 {
            seq![default]
        } else {
            table
        },
        Option::Some(s) => if contains_style(table, s) || table.len() >= MAX_STYLES {
            table
        } else {
            table.push(s)
        },
    }
}

/// The symbol that interning yields: the base symbol for "no style", else
/// the symbol of the record's (first or freshly appended) table index.
pub open spec fn intern_symbol(table: Seq<Style>, style: Option<Style>) -> u8 {
    match style {
        Option::None => STYLE_SYMBOL_BASE,
        Option::Some(s) => (STYLE_SYMBOL_BASE + style_position(table, s)) as u8,
    }
}

/// The document after appending a text fragment under a style: the fragment
/// goes to the text buffer verbatim, a run of the interned symbol of the
/// same length goes to the style-index buffer, and the table is extended as
/// interning demands.
pub open spec fn spec_append(d: DocModel, bytes: Seq<u8>, style: Option<Style>) -> DocModel {
    DocModel {
        text: d.text + bytes,
        style_index: d.style_index + sym_run(intern_symbol(d.table, style), bytes.len()),
        table: intern_table(d.table, d.default_style, style),
        default_style: d.default_style,
    }
}

/// The pattern/replacement pairs on which the repeated splice of
/// replace-all settles. The search advances one position per splice, so a
/// replacement that reintroduces the pattern could feed the cascade
/// forever, and an empty replacement could carry the resume position past
/// the end of the shrunken document. Admissible, and free of both hazards:
/// a non-empty replacement together with either a strictly longer pattern
/// (every splice shrinks the document) or a one-byte pattern that the
/// replacement does not contain (every splice consumes one occurrence for
/// good).
pub open spec fn replace_all_admissible(oldb: Seq<u8>, rep: Seq<u8>) -> bool {
    &&& oldb.len() >= 1
    &&& rep.len() >= 1
    &&& (rep.len() < oldb.len() || (oldb.len() == 1 && !rep.contains(oldb[0])))
}

/// The document after replacing the first occurrence of `oldb` by `newb`
/// under a style: both buffers are spliced at the match, the text taking the
/// replacement bytes and the style-index buffer a run of the interned symbol
/// of the replacement's length. Without a match the document is unchanged.
pub open spec fn spec_replace_first(
    d: DocModel,
    oldb: Seq<u8>,
    newb: Seq<u8>,
    style: Option<Style>,
) -> DocModel {
    let p = first_match(d.text, oldb);
    if p < 0 {
        d
    } else {
        DocModel {
            text: d.text.subrange(0, p) + newb + d.text.subrange(
                p + oldb.len() as int,
                d.text.len() as int,
            ),
            style_index: d.style_index.subrange(0, p) + sym_run(
                intern_symbol(d.table, style),
                newb.len(),
            ) + d.style_index.subrange(p + oldb.len() as int, d.style_index.len() as int),
            table: intern_table(d.table, d.default_style, style),
            default_style: d.default_style,
        }
    }
}

/// The whole replace-all cascade, resuming from position `idx`: while the
/// text still holds the pattern at or after `idx`, splice the replacement
/// over the leftmost occurrence in the whole text ([`spec_replace_first`])
/// and resume one position past the start of the match just found, counted
/// from the old resume position. On the admissible pairs
/// ([`replace_all_admissible`]) the cascade settles: each splice of a
/// one-byte pattern consumes one occurrence for good, and each splice of a
/// longer pattern shrinks the text.
pub open spec fn spec_replace_all_from(
    d: DocModel,
    oldb: Seq<u8>,
    newb: Seq<u8>,
    style: Option<Style>,
    idx: int,
) -> DocModel
    decreases (if oldb.len() == 1 {
        count_byte(d.text, oldb[0])
    } else {
        d.text.len()
    })
    when replace_all_admissible(oldb, newb) && 0 <= idx
    via spec_replace_all_from_decreases
{
    let a = first_match_from(d.text, oldb, idx);
    if a < 0 {
        d
    } else {
        spec_replace_all_from(
            spec_replace_first(d, oldb, newb, style),
            oldb,
            newb,
            style,
            a - idx + 1,
        )
    }
}

#[via_fn]
proof fn spec_replace_all_from_decreases(
    d: DocModel,
    oldb: Seq<u8>,
    newb: Seq<u8>,
    style: Option<Style>,
    idx: int,
) {
    let a = first_match_from(d.text, oldb, idx);
    if a >= 0 {
        lemma_first_match_from_is_match(d.text, oldb, idx);
        lemma_first_match_from_exists(d.text, oldb, 0, a);
        let p = first_match(d.text, oldb);
        lemma_first_match_from_is_match(d.text, oldb, 0);
        let post = spec_replace_first(d, oldb, newb, style);
        if oldb.len() == 1 {
            let c = oldb[0];
            assert(d.text[p] == c) by {
                assert(d.text.subrange(p, p + 1)[0] == d.text[p]);
            }
            assert(forall|i: int| 0 <= i < newb.len() ==> newb[i] != c) by {
                assert forall|i: int| 0 <= i < newb.len() implies newb[i] != c by {
                    if newb[i] == c {
                        assert(newb.contains(c));
                    }
                }
            }
            lemma_count_byte_splice(d.text, p, c, newb);
        } else {
            assert(post.text.len() == d.text.len() - oldb.len() + newb.len());
        }
    }
}

/// `style_position_from` finds the first hit at or after `i`: everything
/// before the reported position differs from `s`, and the position itself
/// carries `s` whenever it lies inside the table.
pub proof fn lemma_style_position_from(table: Seq<Style>, s: Style, i: int)
    requires
        0 <= i <= table.len(),
    ensures
        ({
            let p = style_position_from(table, s, i);
            &&& i <= p <= table.len()
            &&& (p < table.len() ==> table[p] == s)
            &&& forall|q: int| i <= q < p ==> table[q] != s
        }),
    decreases table.len() - i,
{
    if i < table.len() && table[i] != s {
        lemma_style_position_from(table, s, i + 1);
    }
}

/// `style_position` is the first hit from the front, and lies inside the
/// table exactly when the table contains the record.
pub proof fn lemma_style_position(table: Seq<Style>, s: Style)
    ensures
        ({
            let p = style_position(table, s);
            &&& 0 <= p <= table.len()
            &&& (p < table.len() ==> table[p] == s)
            &&& forall|q: int| 0 <= q < p ==> table[q] != s
            &&& (contains_style(table, s) <==> p < table.len())
        }),
{
    lemma_style_position_from(table, s, 0);
    let p = style_position(table, s);
    if contains_style(table, s) && p == table.len() {
        let w = choose|i: int| 0 <= i < table.len() && table[i] == s;
        assert(table[w] != s);
    }
}

/// Skipping a duplicate-free prefix does not move the first hit.
pub proof fn lemma_style_position_skip(table: Seq<Style>, s: Style, i: int)
    requires
        0 <= i <= table.len(),
        forall|q: int| 0 <= q < i ==> table[q] != s,
    ensures
        style_position(table, s) == style_position_from(table, s, i),
    decreases i,
{
    if i > 0 {
        lemma_style_position_skip(table, s, i - 1);
    }
}

/// Interning reaches a fixpoint after one call: the table then contains the
/// record, interning it again changes nothing, and the symbol it yields is
/// the one the first call yielded.
pub proof fn lemma_intern_stable(table: Seq<Style>, default: Style, style: Option<Style>)
    requires
        intern_fits(table, style),
    ensures
        ({
            let t1 = intern_table(table, default, style);
            &&& intern_fits(t1, style)
            &&& intern_table(t1, default, style) == t1
            &&& intern_symbol(t1, style) == intern_symbol(table, style)
            &&& table.is_prefix_of(t1)
            &&& table.len() <= t1.len() <= table.len() + 1
        }),
{
    let t1 = intern_table(table, default, style);
    match style {
        Option::None => {
            assert(table.is_prefix_of(t1)) by {
                if table.len() == 0 {
                    assert(table =~= t1.subrange(0, 0));
                } else {
                    assert(table =~= t1.subrange(0, table.len() as int));
                }
            }
        },
        Option::Some(s) => {
            lemma_style_position(table, s);
            if contains_style(table, s) {
                assert(table =~= t1.subrange(0, table.len() as int));
            } else {
                let n = table.len() as int;
                assert(t1 == table.push(s));
                assert(t1[n] == s);
                assert(contains_style(t1, s));
                assert(style_position(t1, s) == n) by {
                    assert(forall|q: int| 0 <= q < n ==> t1[q] == table[q]);
                    lemma_style_position_skip(t1, s, n);
                    assert(style_position_from(t1, s, n) == n);
                }
                assert(style_position(table, s) == n);
                assert(table =~= t1.subrange(0, n));
            }
        },
    }
}

/// One step of replace-all on a one-byte pattern: splicing the replacement
/// over the leftmost occurrence of the byte `c` leaves the full
/// substitution of both buffers unchanged, removes exactly one occurrence
/// of `c`, and leaves no occurrence before or inside the replacement span.
proof fn lemma_replace_all_step(
    pre: DocModel,
    post: DocModel,
    a: int,
    c: u8,
    rep: Seq<u8>,
    sym: u8,
)
    requires
        pre.style_index.len() == pre.text.len(),
        rep.len() >= 1,
        !rep.contains(c),
        0 <= a < pre.text.len(),
        pre.text[a] == c,
        post.text == pre.text.subrange(0, a) + rep + pre.text.subrange(
            a + 1,
            pre.text.len() as int,
        ),
        post.style_index == pre.style_index.subrange(0, a) + sym_run(sym, rep.len())
            + pre.style_index.subrange(a + 1, pre.style_index.len() as int),
    ensures
        subst_text(post.text, c, rep) == subst_text(pre.text, c, rep),
        subst_styled(post.text, post.style_index, c, rep.len(), sym) == subst_styled(
            pre.text,
            pre.style_index,
            c,
            rep.len(),
            sym,
        ),
        count_byte(post.text, c) + 1 == count_byte(pre.text, c),
        forall|q: int| 0 <= q < a ==> post.text[q] == pre.text[q],
        forall|q: int| a <= q < a + rep.len() ==> post.text[q] == rep[q - a],
{
    let n = pre.text.len() as int;
    let ta = pre.text.subrange(0, a);
    let tb = pre.text.subrange(a, a + 1);
    let tc = pre.text.subrange(a + 1, n);
    let sa = pre.style_index.subrange(0, a);
    let sb = pre.style_index.subrange(a, a + 1);
    let sc = pre.style_index.subrange(a + 1, n);
    let run = sym_run(sym, rep.len());
    let empty = Seq::<u8>::empty();
    assert(forall|i: int| 0 <= i < rep.len() ==> rep[i] != c) by {
        assert forall|i: int| 0 <= i < rep.len() implies rep[i] != c by {
            if rep[i] == c {
                assert(rep.contains(c));
            }
        }
    }
    assert(tb =~= seq![c]);
    assert(pre.text =~= (ta + tb) + tc);
    assert(pre.style_index =~= (sa + sb) + sc);
    assert(post.text =~= (ta + rep) + tc);
    assert(post.style_index =~= (sa + run) + sc);

    // the substituted text is unchanged by the splice
    assert(seq![c].drop_first() =~= empty);
    assert(subst_text(empty, c, rep) =~= empty);
    assert(subst_text(tb, c, rep) =~= rep);
    lemma_subst_text_no_hit(rep, c, rep);
    lemma_subst_text_concat(ta + tb, tc, c, rep);
    lemma_subst_text_concat(ta, tb, c, rep);
    lemma_subst_text_concat(ta + rep, tc, c, rep);
    lemma_subst_text_concat(ta, rep, c, rep);
    assert(subst_text(post.text, c, rep) == subst_text(pre.text, c, rep));

    // the substituted style-index buffer is unchanged as well
    assert(seq![c].len() == 1 && seq![pre.style_index[a]].len() == 1);
    assert(sb =~= seq![pre.style_index[a]]);
    assert(subst_styled(empty, empty, c, rep.len(), sym) =~= empty);
    assert(seq![pre.style_index[a]].drop_first() =~= empty);
    assert(subst_styled(tb, sb, c, rep.len(), sym) =~= run);
    lemma_subst_styled_no_hit(rep, run, c, rep.len(), sym);
    lemma_subst_styled_concat(ta + tb, sa + sb, tc, sc, c, rep.len(), sym);
    lemma_subst_styled_concat(ta, sa, tb, sb, c, rep.len(), sym);
    lemma_subst_styled_concat(ta + rep, sa + run, tc, sc, c, rep.len(), sym);
    lemma_subst_styled_concat(ta, sa, rep, run, c, rep.len(), sym);
    assert(subst_styled(post.text, post.style_index, c, rep.len(), sym) == subst_styled(
        pre.text,
        pre.style_index,
        c,
        rep.len(),
        sym,
    ));

    // exactly one occurrence of `c` went away
    assert(count_byte(tb, c) == 1) by {
        assert(count_byte(empty, c) == 0);
    }
    assert(count_byte(rep, c) == 0) by {
        lemma_count_byte_zero(rep, c);
    }
    lemma_count_byte_concat(ta + tb, tc, c);
    lemma_count_byte_concat(ta, tb, c);
    lemma_count_byte_concat(ta + rep, tc, c);
    lemma_count_byte_concat(ta, rep, c);
}

/// The styled-document builder. It owns the document text, the parallel
/// style-index buffer, and the style table, and keeps the three synchronized
/// under appends, splices and clears; [`wf_doc`] states the synchronization
/// invariant that every operation preserves.
#[derive(Clone, Debug)]
pub struct RichTextBuilder {
    text: Vec<u8>,
    style_index: Vec<u8>,
    table: Vec<Style>,
    default_style: Style,
}

impl View for RichTextBuilder {
    type V = DocModel;

    closed spec fn view(&self) -> DocModel {
        DocModel {
            text: self.text@,
            style_index: self.style_index@,
            table: self.table@,
            default_style: self.default_style,
        }
    }
}

/// Index of the first record equal to `s`, or the table length if absent.
fn position_of(table: &Vec<Style>, s: Style) -> (idx: usize)
    ensures
        idx as int == style_position(table@, s),
        idx <= table@.len(),
{
    let n = table.len();
    let mut i: usize = 0;
    while i < n
        invariant
            i <= n,
            n == table@.len(),
            forall|q: int| 0 <= q < i ==> table@[q] != s,
        decreases n - i,
    {
        if table[i] == s {
            proof {
                lemma_style_position_skip(table@, s, i as int);
            }
            return i;
        }
        i = i + 1;
    }
    proof {
        lemma_style_position_skip(table@, s, n as int);
    }
    n
}

impl RichTextBuilder {
    /// The builder is well formed: see [`wf_doc`].
    pub open spec fn wf(self) -> bool {
        wf_doc(self@)
    }

    /// Builds an empty document whose style table holds exactly the given
    /// default record. The record is an explicit parameter so that a host
    /// embedding can size it by the environment's current default font.
    pub fn with_default(default_style: Style) -> (r: RichTextBuilder)
        ensures
            r.wf(),
            r@.text.len() == 0,
            r@.style_index.len() == 0,
            r@.table == seq![default_style],
            r@.default_style == default_style,
    {
        let mut table: Vec<Style> = Vec::new();
        table.push(default_style);
        proof {
            assert(table@ =~= seq![default_style]);
        }
        RichTextBuilder { text: Vec::new(), style_index: Vec::new(), table, default_style }
    }

    /// Builds an empty document seeded with the plain default record at
    /// [`crate::style::DEFAULT_FONT_SIZE`].
    pub fn new() -> (r: RichTextBuilder)
        ensures
            r.wf(),
            r@.text.len() == 0,
            r@.style_index.len() == 0,
            r@.table == seq![Style::normal_spec(crate::style::DEFAULT_FONT_SIZE)],
            r@.default_style == Style::normal_spec(crate::style::DEFAULT_FONT_SIZE),
    {
        RichTextBuilder::with_default(Style::default())
    }

    /// Resolves a style to its symbol, deduplicating by value equality: an
    /// equal record already in the table yields that record's symbol and
    /// leaves the table as it is; a new record is appended and yields the
    /// fresh highest symbol; "no style" yields the base symbol, reseeding an
    /// empty table with the default record first. A new record that would
    /// not fit the symbol alphabet is refused with [`TableOverflow`] and
    /// changes nothing.
    pub fn intern(&mut self, style: Option<Style>) -> (r: Result<u8, TableOverflow>)
        requires
            old(self).wf(),
        ensures
            final(self).wf(),
            final(self)@.text == old(self)@.text,
            final(self)@.style_index == old(self)@.style_index,
            final(self)@.default_style == old(self)@.default_style,
            final(self)@.table == intern_table(
                old(self)@.table,
                old(self)@.default_style,
                style,
            ),
            old(self)@.table.is_prefix_of(final(self)@.table),
            r is Ok <==> intern_fits(old(self)@.table, style),
            r matches Ok(sym) ==> sym == intern_symbol(old(self)@.table, style) && valid_symbol(
                sym,
                final(self)@.table.len(),
            ),
            r matches Ok(sym) ==> (style matches Some(s) ==> final(self)@.table[sym
                - STYLE_SYMBOL_BASE] == s),
    {
        proof {
            if intern_fits(old(self)@.table, style) {
                lemma_intern_stable(old(self)@.table, old(self)@.default_style, style);
            }
        }
        match style {
            Option::Some(s) => {
                proof {
                    lemma_style_position(self.table@, s);
                }
                let idx = position_of(&self.table, s);
                if idx < self.table.len() {
                    Ok(STYLE_SYMBOL_BASE + idx as u8)
                } else if self.table.len() < MAX_STYLES {
                    self.table.push(s);
                    Ok(STYLE_SYMBOL_BASE + idx as u8)
                } else {
                    proof {
                        assert(self.table@ =~= intern_table(
                            old(self)@.table,
                            old(self)@.default_style,
                            style,
                        ));
                        assert(old(self)@.table.is_prefix_of(self.table@));
                    }
                    Err(TableOverflow)
                }
            },
            Option::None => {
                if self.table.len() == 0 {
                    proof {
                        assert(self.style_index@.len() == 0) by {
                            if self.style_index@.len() > 0 {
                                assert(valid_symbol(self.style_index@[0], 0));
                            }
                        }
                    }
                    self.table.push(self.default_style);
                    proof {
                        assert(self.table@ =~= seq![self.default_style]);
                    }
                }
                Ok(STYLE_SYMBOL_BASE)
            },
        }
    }

    /// Appends a text fragment under an optional style: the fragment goes to
    /// the text buffer verbatim and a run of the interned symbol of the same
    /// byte length goes to the style-index buffer, atomically. An empty
    /// fragment still interns the style. The only failure is
    /// [`TableOverflow`], which leaves the document unchanged.
    pub fn append(&mut self, txt: &str, style: Option<Style>) -> (r: Result<(), TableOverflow>)
        requires
            old(self).wf(),
        ensures
            final(self).wf(),
            r is Ok <==> intern_fits(old(self)@.table, style),
            r is Ok ==> final(self)@ == spec_append(old(self)@, txt.spec_bytes(), style),
            r is Err ==> final(self)@ == old(self)@,
    {
        let bytes = txt.as_bytes_vec();
        let sym = match self.intern(style) {
            Ok(sym) => sym,
            Err(e) => {
                return Err(e);
            },
        };
        push_range(&mut self.text, &bytes, 0, bytes.len());
        push_run(&mut self.style_index, sym, bytes.len());
        proof {
            assert(bytes@.subrange(0, bytes@.len() as int) =~= bytes@);
            assert(self@ =~= spec_append(old(self)@, txt.spec_bytes(), style));
            assert forall|i: int|
                0 <= i < self.style_index@.len() implies valid_symbol(
                #[trigger] self.style_index@[i],
                self.table@.len(),
            ) by {
                if i < old(self)@.style_index.len() {
                    assert(valid_symbol(old(self)@.style_index[i], old(self)@.table.len()));
                    assert(old(self)@.table.len() <= self.table@.len());
                }
            }
        }
        Ok(())
    }

    /// Replaces the first occurrence of `old_txt` (leftmost, byte-exact) by
    /// `new_txt`, restyling the replaced span: both buffers are spliced at
    /// the match, the text buffer taking the replacement verbatim and the
    /// style-index buffer a run of the interned symbol of the replacement's
    /// byte length. A document without an occurrence is left unchanged, and
    /// that is not an error. The only failure is [`TableOverflow`], which
    /// leaves the document unchanged.
    pub fn replace_first(&mut self, old_txt: &str, new_txt: &str, style: Option<Style>) -> (r:
        Result<(), TableOverflow>)
        requires
            old(self).wf(),
        ensures
            final(self).wf(),
            final(self)@.default_style == old(self)@.default_style,
            ({
                let d = old(self)@;
                let oldb = old_txt.spec_bytes();
                if first_match(d.text, oldb) < 0 {
                    r is Ok && final(self)@ == d
                } else if intern_fits(d.table, style) {
                    r is Ok && final(self)@ == spec_replace_first(
                        d,
                        oldb,
                        new_txt.spec_bytes(),
                        style,
                    )
                } else {
                    r is Err && final(self)@ == d
                }
            }),
    {
        let oldb = old_txt.as_bytes_vec();
        let newb = new_txt.as_bytes_vec();
        let tl = self.text.len();
        match find_from(&self.text, &oldb, 0) {
            None => {
                proof {
                    lemma_first_match_from_none(self.text@, oldb@, 0);
                }
                Ok(())
            },
            Some(p) => {
                proof {
                    lemma_first_match_from_found(self.text@, oldb@, 0, p as int);
                }
                let sym = match self.intern(style) {
                    Ok(sym) => sym,
                    Err(e) => {
                        return Err(e);
                    },
                };
                let end = p + oldb.len();
                let new_text = splice_bytes(&self.text, p, end, &newb);
                let new_sbuf = splice_run(&self.style_index, p, end, sym, newb.len());
                self.text = new_text;
                self.style_index = new_sbuf;
                proof {
                    assert(self@ =~= spec_replace_first(
                        old(self)@,
                        oldb@,
                        newb@,
                        style,
                    ));
                    assert forall|i: int|
                        0 <= i < self.style_index@.len() implies valid_symbol(
                        #[trigger] self.style_index@[i],
                        self.table@.len(),
                    ) by {
                        let d = old(self)@;
                        let pi = p as int;
                        let mid = sym_run(sym, newb@.len());
                        if i < pi {
                            assert(self.style_index@[i] == d.style_index.subrange(0, pi)[i]);
                            assert(valid_symbol(d.style_index[i], d.table.len()));
                        } else if i < pi + mid.len() {
                            assert(self.style_index@[i] == mid[i - pi]);
                        } else {
                            let j = i - pi - mid.len() + end;
                            assert(self.style_index@[i] == d.style_index.subrange(
                                end as int,
                                d.style_index.len() as int,
                            )[i - pi - mid.len()]);
                            assert(valid_symbol(d.style_index[j], d.table.len()));
                        }
                        assert(d.table.len() <= self.table@.len());
                    }
                }
                Ok(())
            },
        }
    }

    /// Replaces every occurrence of `old_txt` by `new_txt`, restyling each
    /// replaced span, by repeated [`Self::replace_first`] splices: the
    /// search resumes one position past the start of the most recent match
    /// and stops when a scan finds no further occurrence. Because the
    /// search advances by one position rather than past the replacement, a
    /// replacement that reintroduces the pattern could feed the cascade
    /// forever; the admissible pairs ([`replace_all_admissible`]) rule that
    /// out. The result is exactly the cascade of first-occurrence splices,
    /// [`spec_replace_all_from`], started at resume position zero. For a
    /// one-byte pattern that comes to the full substitution: every
    /// occurrence replaced exactly once, none left. For a strictly
    /// shrinking replacement the cascade also settles, though the
    /// one-position advance may pass over occurrences that a splice
    /// uncovers, as the repeated-splice algorithm always could. A document
    /// without an occurrence is left unchanged, and that is not an error.
    /// The only failure is [`TableOverflow`], which leaves the document
    /// unchanged.
    pub fn replace_all(&mut self, old_txt: &str, new_txt: &str, style: Option<Style>) -> (r:
        Result<(), TableOverflow>)
        requires
            old(self).wf(),
            replace_all_admissible(old_txt.spec_bytes(), new_txt.spec_bytes()),
        ensures
            final(self).wf(),
            final(self)@.default_style == old(self)@.default_style,
            old(self)@.table.len() <= final(self)@.table.len() <= old(self)@.table.len() + 1,
            ({
                let d = old(self)@;
                let oldb = old_txt.spec_bytes();
                let rep = new_txt.spec_bytes();
                if first_match(d.text, oldb) < 0 {
                    r is Ok && final(self)@ == d
                } else if !intern_fits(d.table, style) {
                    r is Err && final(self)@ == d
                } else {
                    &&& r is Ok
                    &&& final(self)@ == spec_replace_all_from(d, oldb, rep, style, 0)
                    &&& final(self)@.table == intern_table(d.table, d.default_style, style)
                    &&& final(self)@.style_index.len() == final(self)@.text.len()
                    &&& (oldb.len() == 1 ==> ({
                        let c = oldb[0];
                        &&& final(self)@.text == subst_text(d.text, c, rep)
                        &&& final(self)@.style_index == subst_styled(
                            d.text,
                            d.style_index,
                            c,
                            rep.len(),
                            intern_symbol(d.table, style),
                        )
                        &&& !final(self)@.text.contains(c)
                    }))
                }
            }),
    {
        let oldb = old_txt.as_bytes_vec();
        let newb = new_txt.as_bytes_vec();
        let ghost d0 = self@;
        let ghost rep = newb@;
        let ghost single = oldb@.len() == 1;
        let ghost c = oldb@[0];
        let ghost sym0 = intern_symbol(self.table@, style);
        let ghost mut started = false;
        let mut idx: usize = 0;
        loop
            invariant
                self.wf(),
                d0 == old(self)@,
                wf_doc(d0),
                oldb@ == old_txt.spec_bytes(),
                newb@ == new_txt.spec_bytes(),
                replace_all_admissible(oldb@, rep),
                rep == newb@,
                single == (oldb@.len() == 1),
                c == oldb@[0],
                sym0 == intern_symbol(d0.table, style),
                self@.default_style == d0.default_style,
                idx <= self@.text.len(),
                spec_replace_all_from(self@, oldb@, rep, style, idx as int)
                    == spec_replace_all_from(d0, oldb@, rep, style, 0),
                single ==> forall|q: int| 0 <= q < idx ==> self@.text[q] != c,
                started ==> ({
                    &&& first_match(d0.text, oldb@) >= 0
                    &&& intern_fits(d0.table, style)
                    &&& self@.table == intern_table(d0.table, d0.default_style, style)
                    &&& intern_fits(self@.table, style)
                    &&& intern_table(self@.table, d0.default_style, style) == self@.table
                    &&& intern_symbol(self@.table, style) == sym0
                }),
                (started && single) ==> ({
                    &&& subst_text(self@.text, c, rep) == subst_text(d0.text, c, rep)
                    &&& subst_styled(self@.text, self@.style_index, c, rep.len(), sym0)
                        == subst_styled(d0.text, d0.style_index, c, rep.len(), sym0)
                }),
                !started ==> self@ == d0 && idx == 0,
            decreases (if single {
                count_byte(self@.text, c)
            } else {
                self@.text.len()
            }),
        {
            match find_from(&self.text, &oldb, idx) {
                None => {
                    proof {
                        lemma_first_match_from_none(self@.text, oldb@, idx as int);
                        assert(spec_replace_all_from(self@, oldb@, rep, style, idx as int)
                            == self@);
                        if !started {
                            lemma_first_match_from_none(self@.text, oldb@, 0);
                        } else if single {
                            lemma_single_byte_match(self@.text, oldb@);
                            assert forall|q: int|
                                0 <= q < self@.text.len() implies self@.text[q] != c by {
                                if q >= idx && self@.text[q] == c {
                                    assert(match_at(self@.text, oldb@, q));
                                }
                            }
                            assert(!self@.text.contains(c));
                            lemma_subst_text_no_hit(self@.text, c, rep);
                            lemma_subst_styled_no_hit(
                                self@.text,
                                self@.style_index,
                                c,
                                rep.len(),
                                sym0,
                            );
                        }
                    }
                    return Ok(());
                },
                Some(a) => {
                    proof {
                        if single {
                            lemma_single_byte_match(self@.text, oldb@);
                            assert(self@.text[a as int] == c);
                            assert forall|q: int| 0 <= q < a implies self@.text[q] != c by {
                                if q >= idx && self@.text[q] == c {
                                    assert(match_at(self@.text, oldb@, q));
                                }
                            }
                            assert forall|q: int|
                                0 <= q < a implies !match_at(self@.text, oldb@, q) by {
                                if match_at(self@.text, oldb@, q) {
                                    assert(self@.text[q] == c);
                                }
                            }
                            lemma_first_match_from_found(self@.text, oldb@, 0, a as int);
                        } else {
                            lemma_first_match_from_exists(self@.text, oldb@, 0, a as int);
                        }
                    }
                    let tl = self.text.len();
                    proof {
                        assert(a < tl);
                    }
                    let ghost pre = self@;
                    let ghost idx0 = idx as int;
                    match self.replace_first(old_txt, new_txt, style) {
                        Err(e) => {
                            proof {
                                if started {
                                    assert(false);
                                }
                            }
                            return Err(e);
                        },
                        Ok(_) => {},
                    }
                    proof {
                        if !started {
                            lemma_intern_stable(d0.table, d0.default_style, style);
                        }
                        if single {
                            lemma_replace_all_step(pre, self@, a as int, c, rep, sym0);
                        }
                    }
                    idx = (a - idx) + 1;
                    proof {
                        started = true;
                        if single {
                            assert(idx <= a + rep.len() <= self@.text.len());
                        } else {
                            assert(self@.text.len() == pre.text.len() - oldb@.len()
                                + rep.len());
                            assert(idx <= self@.text.len());
                        }
                        assert(first_match_from(pre.text, oldb@, idx0) == a as int) by {
                            lemma_first_match_from_found(pre.text, oldb@, idx0, a as int);
                        }
                        assert(spec_replace_all_from(pre, oldb@, rep, style, idx0)
                            == spec_replace_all_from(self@, oldb@, rep, style, idx as int));
                    }
                },
            }
        }
    }

    /// Empties the text buffer, the style-index buffer, and the style table,
    /// leaving the builder ready for reuse. The default record is kept, so
    /// that the next operation that needs it can reseed the table.
    pub fn clear(&mut self)
        ensures
            final(self).wf(),
            final(self)@.text.len() == 0,
            final(self)@.style_index.len() == 0,
            final(self)@.table.len() == 0,
            final(self)@.default_style == old(self)@.default_style,
    {
        self.text = Vec::new();
        self.style_index = Vec::new();
        self.table = Vec::new();
    }

    /// The document text, as bytes.
    pub fn text_bytes(&self) -> (r: &Vec<u8>)
        ensures
            r@ == self@.text,
    {
        &self.text
    }

    /// The style-index buffer: one symbol per text byte.
    pub fn style_bytes(&self) -> (r: &Vec<u8>)
        ensures
            r@ == self@.style_index,
    {
        &self.style_index
    }

    /// The style table; the display collaborator renders each text byte with
    /// the entry its symbol names.
    pub fn style_table(&self) -> (r: &Vec<Style>)
        ensures
            r@ == self@.table,
    {
        &self.table
    }
}

impl Default for RichTextBuilder {
    /// An empty document seeded like [`RichTextBuilder::new`].
    fn default() -> (r: RichTextBuilder)
        ensures
            r.wf(),
            r@.text.len() == 0,
            r@.style_index.len() == 0,
            r@.table == seq![Style::normal_spec(crate::style::DEFAULT_FONT_SIZE)],
            r@.default_style == Style::normal_spec(crate::style::DEFAULT_FONT_SIZE),
    {
        RichTextBuilder::new()
    }
}

/// A display collaborator: a host widget that accepts the finished (text,
/// style-index, style table) triple in one call and renders each byte with
/// the table entry its symbol names.
pub trait RichTextDisplay {
    /// Hands the finished document to the display.
    fn set_rich_text(&mut self, doc: RichTextBuilder);
}

} // verus!
