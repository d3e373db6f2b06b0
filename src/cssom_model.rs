use vstd::prelude::*;
use crate::css_token::CssTokenModel;

verus! {

pub ghost enum SelectorModel {
    Type(Seq<char>),
    Class(Seq<char>),
    Id(Seq<char>),
    Unknown,
}

pub ghost struct DeclarationModel {
    pub property: Seq<char>,
    pub value: CssTokenModel,
}

pub ghost struct RuleModel {
    pub selector: SelectorModel,
    pub declarations: Seq<DeclarationModel>,
}

/// The simple selector that starts at `i`, and the position after it; `None` where the
/// rule has no selector (`{` or the end) or a `.` has no class name after it.
pub open spec fn selector_at(ts: Seq<CssTokenModel>, i: int) -> Option<(SelectorModel, int)> {
    if i < 0 || i >= ts.len() {
        None
    } else {
        match ts[i] {
            CssTokenModel::HashToken(v) => Some((SelectorModel::Id(v), i + 1)),
            CssTokenModel::Ident(v) => Some((SelectorModel::Type(v), i + 1)),
            CssTokenModel::OpenCurly => None,
            CssTokenModel::Delim(d) => if d != '.' {
                Some((SelectorModel::Unknown, i + 1))
            } else if i + 1 < ts.len() && ts[i + 1] is Ident {
                Some((SelectorModel::Class(ts[i + 1]->Ident_0), i + 2))
            } else {
                None
            },
            _ => Some((SelectorModel::Unknown, i + 1)),
        }
    }
}

/// The position of the first `{` from `i` on, or the end of the tokens.
pub open spec fn find_open(ts: Seq<CssTokenModel>, i: int) -> int
    decreases ts.len() - i,
{
    if i < 0 || i >= ts.len() {
        ts.len() as int
    } else if ts[i] is OpenCurly {
        i
    } else {
        find_open(ts, i + 1)
    }
}

/// The declarations of a block whose body starts at `i`, and the position after its `}`
/// (or the end of the tokens). A declaration is a name, a `:` and one value token; a
/// name without a `:` after it, a `;` and any other token are passed over.
pub open spec fn declarations_at(ts: Seq<CssTokenModel>, i: int) -> (Seq<DeclarationModel>, int)
    decreases ts.len() - i,
{
    if i < 0 || i >= ts.len() {
        (Seq::empty(), ts.len() as int)
    } else {
        match ts[i] {
            CssTokenModel::CloseCurly => (Seq::empty(), i + 1),
            CssTokenModel::Ident(p) => if i + 2 < ts.len() && ts[i + 1] is Colon {
                let rest = declarations_at(ts, i + 3);
                (
                    seq![DeclarationModel { property: p, value: ts[i + 2] }] + rest.0,
                    rest.1,
                )
            } else {
                declarations_at(ts, i + 1)
            },
            _ => declarations_at(ts, i + 1),
        }
    }
}

/// The qualified rule that starts at `i` and the position after it; `None` when it is
/// malformed: no selector, or no `{` after it.
pub open spec fn qualified_rule_at(ts: Seq<CssTokenModel>, i: int) -> Option<(RuleModel, int)> {
    match selector_at(ts, i) {
        None => None,
        Some((sel, j)) => {
            let k = find_open(ts, j);
            if k >= ts.len() {
                None
            } else {
                let (ds, e) = declarations_at(ts, k + 1);
                Some((RuleModel { selector: sel, declarations: ds }, e))
            }
        },
    }
}

/// The position after the `}` that closes a block `depth` levels deep, or the end.
pub open spec fn block_end(ts: Seq<CssTokenModel>, i: int, depth: nat) -> int
    decreases ts.len() - i,
{
    if i < 0 || i >= ts.len() {
        ts.len() as int
    } else if ts[i] is CloseCurly {
        if depth <= 1 {
            i + 1
        } else {
            block_end(ts, i + 1, (depth - 1) as nat)
        }
    } else if ts[i] is OpenCurly {
        block_end(ts, i + 1, depth + 1)
    } else {
        block_end(ts, i + 1, depth)
    }
}

/// The position after an at-rule whose keyword stands just before `i`: after its `;`,
/// after the block that closes it, or the end.
pub open spec fn at_rule_end(ts: Seq<CssTokenModel>, i: int) -> int
    decreases ts.len() - i,
{
    if i < 0 || i >= ts.len() {
        ts.len() as int
    } else if ts[i] is SemiColon {
        i + 1
    } else if ts[i] is OpenCurly {
        block_end(ts, i + 1, 1)
    } else {
        at_rule_end(ts, i + 1)
    }
}

/// The rules of a style sheet from `i` on. At-rules are passed over; the first malformed
/// qualified rule ends the list.
pub open spec fn rules_at(ts: Seq<CssTokenModel>, i: int) -> Seq<RuleModel>
    decreases ts.len() - i,
{
    if i < 0 || i >= ts.len() {
        Seq::empty()
    } else if ts[i] is AtKeyword {
        let e = at_rule_end(ts, i + 1);
        if i < e <= ts.len() {
            rules_at(ts, e)
        } else {
            Seq::empty()
        }
    } else {
        match qualified_rule_at(ts, i) {
            None => Seq::empty(),
            Some((r, e)) => if i < e <= ts.len() {
                seq![r] + rules_at(ts, e)
            } else {
                Seq::empty()
            },
        }
    }
}

/// Where the parser stands after giving up on a malformed qualified rule that starts at
/// `i`: still at `i` when there is no selector, at the end when no `{` follows it.
pub open spec fn give_up_at(ts: Seq<CssTokenModel>, i: int) -> int {
    match selector_at(ts, i) {
        None => i,
        Some(_) => ts.len() as int,
    }
}

/// Where the parser stands once the rules from `i` on have been read: at the end of the
/// tokens, or where it gave up on the first malformed qualified rule.
pub open spec fn rules_end(ts: Seq<CssTokenModel>, i: int) -> int
    decreases ts.len() - i,
{
    if i < 0 || i >= ts.len() {
        i
    } else if ts[i] is AtKeyword {
        let e = at_rule_end(ts, i + 1);
        if i < e <= ts.len() {
            rules_end(ts, e)
        } else {
            i
        }
    } else {
        match qualified_rule_at(ts, i) {
            None => give_up_at(ts, i),
            Some((r, e)) => if i < e <= ts.len() {
                rules_end(ts, e)
            } else {
                i
            },
        }
    }
}

pub proof fn lemma_ends(ts: Seq<CssTokenModel>, i: int, depth: nat)
    requires
        0 <= i <= ts.len(),
    ensures
        i <= find_open(ts, i) <= ts.len(),
        i <= declarations_at(ts, i).1 <= ts.len(),
        i <= block_end(ts, i, depth) <= ts.len(),
        i <= at_rule_end(ts, i) <= ts.len(),
    decreases ts.len() - i,
{
    if i < ts.len() {
        lemma_ends(ts, i + 1, depth);
        lemma_ends(ts, i + 1, depth + 1);
        lemma_ends(ts, i + 1, 1);
        if depth > 1 {
            lemma_ends(ts, i + 1, (depth - 1) as nat);
        }
        if i + 3 <= ts.len() {
            lemma_ends(ts, i + 3, depth);
        }
    }
}

pub proof fn lemma_rule_ends(ts: Seq<CssTokenModel>, i: int)
    requires
        0 <= i < ts.len(),
    ensures
        qualified_rule_at(ts, i) matches Some((r, e)) ==> i < e <= ts.len(),
        i < at_rule_end(ts, i + 1) <= ts.len(),
{
    lemma_ends(ts, i + 1, 1);
    if i + 2 <= ts.len() {
        lemma_ends(ts, i + 2, 1);
    }
    if let Some((sel, j)) = selector_at(ts, i) {
        lemma_ends(ts, j, 1);
        let k = find_open(ts, j);
        if k < ts.len() {
            lemma_ends(ts, k + 1, 1);
        }
    }
}

/// A well-formed qualified rule is kept, and the rules after it follow it.
pub proof fn lemma_rule_then_rest(ts: Seq<CssTokenModel>, i: int, r: RuleModel, e: int)
    requires
        0 <= i < ts.len(),
        !(ts[i] is AtKeyword),
        qualified_rule_at(ts, i) == Some((r, e)),
    ensures
        rules_at(ts, i) == seq![r] + rules_at(ts, e),
{
    lemma_rule_ends(ts, i);
}

/// A malformed qualified rule ends the style sheet: nothing after it is kept, however
/// many well-formed rules follow.
pub proof fn lemma_stop_at_malformed(ts: Seq<CssTokenModel>, i: int)
    requires
        0 <= i < ts.len(),
        !(ts[i] is AtKeyword),
        qualified_rule_at(ts, i) is None,
    ensures
        rules_at(ts, i) == Seq::<RuleModel>::empty(),
{
}

/// Where the rule after a well-formed one is malformed, the well-formed one is all that
/// is kept.
pub proof fn lemma_valid_then_malformed(ts: Seq<CssTokenModel>, i: int, r: RuleModel, e: int)
    requires
        0 <= i < ts.len(),
        !(ts[i] is AtKeyword),
        qualified_rule_at(ts, i) == Some((r, e)),
        e < ts.len(),
        !(ts[e] is AtKeyword),
        qualified_rule_at(ts, e) is None,
    ensures
        rules_at(ts, i) == seq![r],
{
    lemma_rule_then_rest(ts, i, r, e);
    lemma_stop_at_malformed(ts, e);
    assert(seq![r] + Seq::<RuleModel>::empty() =~= seq![r]);
}

/// The tokens that write a selector; an unknown selector has none.
pub open spec fn selector_tokens(s: SelectorModel) -> Seq<CssTokenModel> {
    match s {
        SelectorModel::Type(n) => seq![CssTokenModel::Ident(n)],
        SelectorModel::Class(n) => seq![CssTokenModel::Delim('.'), CssTokenModel::Ident(n)],
        SelectorModel::Id(n) => seq![CssTokenModel::HashToken(n)],
        SelectorModel::Unknown => Seq::empty(),
    }
}

/// The tokens that write declarations: `name : value ;` for each.
pub open spec fn declaration_tokens(ds: Seq<DeclarationModel>) -> Seq<CssTokenModel>
    decreases ds.len(),
{
    if ds.len() == 0 {
        Seq::empty()
    } else {
        seq![
            CssTokenModel::Ident(ds[0].property),
            CssTokenModel::Colon,
            ds[0].value,
            CssTokenModel::SemiColon,
        ] + declaration_tokens(ds.drop_first())
    }
}

/// The tokens that write a rule: its selector, then its declarations in braces.
pub open spec fn rule_tokens(r: RuleModel) -> Seq<CssTokenModel> {
    selector_tokens(r.selector) + seq![CssTokenModel::OpenCurly] + declaration_tokens(
        r.declarations,
    ) + seq![CssTokenModel::CloseCurly]
}

/// The tokens that write a list of rules, one after another.
pub open spec fn sheet_tokens(rs: Seq<RuleModel>) -> Seq<CssTokenModel>
    decreases rs.len(),
{
    if rs.len() == 0 {
        Seq::empty()
    } else {
        rule_tokens(rs[0]) + sheet_tokens(rs.drop_first())
    }
}

/// A rule whose selector can be written down.
pub open spec fn canonical(rs: Seq<RuleModel>) -> bool {
    forall|k: int| 0 <= k < rs.len() ==> !((#[trigger] rs[k]).selector is Unknown)
}

/// `seg` stands in `ts` from `i` on.
pub open spec fn stands_at(ts: Seq<CssTokenModel>, i: int, seg: Seq<CssTokenModel>) -> bool {
    0 <= i && i + seg.len() <= ts.len() && ts.subrange(i, i + seg.len()) == seg
}

proof fn lemma_split(ts: Seq<CssTokenModel>, i: int, a: Seq<CssTokenModel>, b: Seq<CssTokenModel>)
    requires
        stands_at(ts, i, a + b),
    ensures
        stands_at(ts, i, a),
        stands_at(ts, i + a.len(), b),
        forall|k: int| 0 <= k < a.len() ==> ts[i + k] == #[trigger] a[k],
{
    let whole = ts.subrange(i, i + a.len() + b.len());
    assert forall|k: int| 0 <= k < a.len() implies ts[i + k] == #[trigger] a[k] by {
        assert(whole[k] == (a + b)[k]);
    }
    assert(ts.subrange(i, i + a.len()) =~= a);
    assert forall|k: int| 0 <= k < b.len() implies ts.subrange(
        i + a.len(),
        i + a.len() + b.len(),
    )[k] == b[k] by {
        assert(whole[a.len() + k] == (a + b)[a.len() + k]);
    }
    assert(ts.subrange(i + a.len(), i + a.len() + b.len()) =~= b);
}

proof fn lemma_declarations_read_back(ts: Seq<CssTokenModel>, j: int, ds: Seq<DeclarationModel>)
    requires
        stands_at(ts, j, declaration_tokens(ds) + seq![CssTokenModel::CloseCurly]),
    ensures
        declarations_at(ts, j) == (ds, j + declaration_tokens(ds).len() + 1),
    decreases ds.len(),
{
    let close = seq![CssTokenModel::CloseCurly];
    lemma_split(ts, j, declaration_tokens(ds), close);
    if ds.len() == 0 {
        assert(ts[j + 0] == close[0]);
    } else {
        let rest = declaration_tokens(ds.drop_first());
        let head = seq![
            CssTokenModel::Ident(ds[0].property),
            CssTokenModel::Colon,
            ds[0].value,
            CssTokenModel::SemiColon,
        ];
        assert(declaration_tokens(ds) + close =~= head + (rest + close));
        lemma_split(ts, j, head, rest + close);
        assert(ts[j + 0] == head[0]);
        assert(ts[j + 1] == head[1]);
        assert(ts[j + 2] == head[2]);
        assert(ts[j + 3] == head[3]);
        lemma_declarations_read_back(ts, j + 4, ds.drop_first());
        assert(declarations_at(ts, j + 3) == declarations_at(ts, j + 4));
        assert(seq![DeclarationModel { property: ds[0].property, value: ds[0].value }]
            + ds.drop_first() =~= ds);
    }
}

proof fn lemma_rule_read_back(ts: Seq<CssTokenModel>, i: int, r: RuleModel)
    requires
        stands_at(ts, i, rule_tokens(r)),
        !(r.selector is Unknown),
    ensures
        !(ts[i] is AtKeyword),
        qualified_rule_at(ts, i) == Some((r, i + rule_tokens(r).len())),
{
    let st = selector_tokens(r.selector);
    let open = seq![CssTokenModel::OpenCurly];
    let dt = declaration_tokens(r.declarations);
    let close = seq![CssTokenModel::CloseCurly];
    assert(rule_tokens(r) =~= (st + open) + (dt + close));
    lemma_split(ts, i, st + open, dt + close);
    lemma_split(ts, i, st, open);
    let k = i + st.len();
    assert(ts[i + 0] == st[0]);
    assert(ts[k + 0] == open[0]);
    if st.len() == 2 {
        assert(ts[i + 1] == st[1]);
    }
    assert(selector_at(ts, i) == Some((r.selector, k)));
    assert(find_open(ts, k) == k);
    lemma_declarations_read_back(ts, k + 1, r.declarations);
}

proof fn lemma_sheet_read_back(ts: Seq<CssTokenModel>, i: int, rs: Seq<RuleModel>)
    requires
        canonical(rs),
        stands_at(ts, i, sheet_tokens(rs)),
    ensures
        rules_at(ts, i) == rs + rules_at(ts, i + sheet_tokens(rs).len()),
    decreases rs.len(),
{
    if rs.len() == 0 {
        assert(rs + rules_at(ts, i) =~= rules_at(ts, i));
    } else {
        let rt = rule_tokens(rs[0]);
        let rest = sheet_tokens(rs.drop_first());
        let e = i + rt.len();
        lemma_split(ts, i, rt, rest);
        assert(!(rs[0].selector is Unknown));
        lemma_rule_read_back(ts, i, rs[0]);
        assert(canonical(rs.drop_first())) by {
            assert forall|k: int| 0 <= k < rs.drop_first().len() implies !((
            #[trigger] rs.drop_first()[k]).selector is Unknown) by {
                assert(rs.drop_first()[k] == rs[k + 1]);
            }
        }
        lemma_sheet_read_back(ts, e, rs.drop_first());
        lemma_rule_then_rest(ts, i, rs[0], e);
        assert(seq![rs[0]] + (rs.drop_first() + rules_at(ts, e + rest.len())) =~= rs + rules_at(
            ts,
            i + sheet_tokens(rs).len(),
        ));
    }
}

/// Well-formed rules followed by a malformed one: the style sheet holds exactly those
/// rules, whatever comes after the malformed one.
pub proof fn lemma_valid_prefix_malformed_suffix(ts: Seq<CssTokenModel>, rs: Seq<RuleModel>)
    requires
        canonical(rs),
        sheet_tokens(rs).len() < ts.len(),
        ts.subrange(0, sheet_tokens(rs).len() as int) == sheet_tokens(rs),
        !(ts[sheet_tokens(rs).len() as int] is AtKeyword),
        qualified_rule_at(ts, sheet_tokens(rs).len() as int) is None,
    ensures
        rules_at(ts, 0) == rs,
{
    lemma_sheet_read_back(ts, 0, rs);
    lemma_stop_at_malformed(ts, sheet_tokens(rs).len() as int);
    assert(rs + Seq::<RuleModel>::empty() =~= rs);
}

/// Writing rules whose selectors are known as tokens and parsing those tokens again gives
/// the same rules back.
pub proof fn lemma_reparse_identity(rs: Seq<RuleModel>)
    requires
        canonical(rs),
    ensures
        rules_at(sheet_tokens(rs), 0) == rs,
{
    let ts = sheet_tokens(rs);
    assert(ts.subrange(0, ts.len() as int) =~= ts);
    lemma_sheet_read_back(ts, 0, rs);
    assert(rs + Seq::<RuleModel>::empty() =~= rs);
}

/// Parsing, writing the result as tokens and parsing again gives the same rules as the
/// first parse, wherever that parse found only known selectors.
pub proof fn lemma_parse_is_idempotent(ts: Seq<CssTokenModel>)
    requires
        canonical(rules_at(ts, 0)),
    ensures
        rules_at(sheet_tokens(rules_at(ts, 0)), 0) == rules_at(ts, 0),
{
    lemma_reparse_identity(rules_at(ts, 0));
}

proof fn lemma_find_open_prefix(ts: Seq<CssTokenModel>, j: int, k: int)
    requires
        0 <= j <= k <= ts.len(),
        find_open(ts, j) < k,
    ensures
        find_open(ts.subrange(0, k), j) == find_open(ts, j),
    decreases ts.len() - j,
{
    lemma_ends(ts, j, 1);
    if !(ts[j] is OpenCurly) {
        lemma_find_open_prefix(ts, j + 1, k);
    }
}

proof fn lemma_declarations_prefix(ts: Seq<CssTokenModel>, i: int, k: int)
    requires
        0 <= i <= k,
        k < ts.len(),
        declarations_at(ts, i).1 <= k,
    ensures
        declarations_at(ts.subrange(0, k), i) == declarations_at(ts, i),
    decreases ts.len() - i,
{
    let p = ts.subrange(0, k);
    lemma_ends(ts, i + 1, 1);
    if i + 3 <= ts.len() {
        lemma_ends(ts, i + 3, 1);
    }
    if i < k {
        assert(p[i] == ts[i]);
        if i + 1 < k {
            assert(p[i + 1] == ts[i + 1]);
        }
        match ts[i] {
            CssTokenModel::CloseCurly => {},
            CssTokenModel::Ident(_) => {
                if i + 2 < ts.len() && ts[i + 1] is Colon {
                    lemma_ends(ts, i + 3, 1);
                    lemma_declarations_prefix(ts, i + 3, k);
                } else {
                    lemma_declarations_prefix(ts, i + 1, k);
                }
            },
            _ => {
                lemma_declarations_prefix(ts, i + 1, k);
            },
        }
    }
}

proof fn lemma_block_end_prefix(ts: Seq<CssTokenModel>, i: int, depth: nat, k: int)
    requires
        0 <= i <= k,
        k < ts.len(),
        block_end(ts, i, depth) <= k,
    ensures
        block_end(ts.subrange(0, k), i, depth) == block_end(ts, i, depth),
    decreases ts.len() - i,
{
    lemma_ends(ts, i + 1, depth);
    lemma_ends(ts, i + 1, depth + 1);
    if depth > 1 {
        lemma_ends(ts, i + 1, (depth - 1) as nat);
    }
    if i < k {
        assert(ts.subrange(0, k)[i] == ts[i]);
        if ts[i] is CloseCurly {
            if depth > 1 {
                lemma_block_end_prefix(ts, i + 1, (depth - 1) as nat, k);
            }
        } else if ts[i] is OpenCurly {
            lemma_block_end_prefix(ts, i + 1, depth + 1, k);
        } else {
            lemma_block_end_prefix(ts, i + 1, depth, k);
        }
    }
}

proof fn lemma_at_rule_prefix(ts: Seq<CssTokenModel>, i: int, k: int)
    requires
        0 <= i <= k,
        k < ts.len(),
        at_rule_end(ts, i) <= k,
    ensures
        at_rule_end(ts.subrange(0, k), i) == at_rule_end(ts, i),
    decreases ts.len() - i,
{
    lemma_ends(ts, i + 1, 1);
    if i < k {
        assert(ts.subrange(0, k)[i] == ts[i]);
        if ts[i] is SemiColon {
        } else if ts[i] is OpenCurly {
            lemma_block_end_prefix(ts, i + 1, 1, k);
        } else {
            lemma_at_rule_prefix(ts, i + 1, k);
        }
    }
}

proof fn lemma_rules_end_after(ts: Seq<CssTokenModel>, i: int)
    requires
        0 <= i <= ts.len(),
    ensures
        i <= rules_end(ts, i) <= ts.len(),
    decreases ts.len() - i,
{
    if i < ts.len() {
        lemma_rule_ends(ts, i);
        if ts[i] is AtKeyword {
            lemma_rules_end_after(ts, at_rule_end(ts, i + 1));
        } else if let Some((r, e)) = qualified_rule_at(ts, i) {
            lemma_rules_end_after(ts, e);
        }
    }
}

proof fn lemma_rules_prefix(ts: Seq<CssTokenModel>, i: int, k: int)
    requires
        0 <= i <= k,
        k < ts.len(),
        rules_end(ts, i) == k,
    ensures
        rules_at(ts.subrange(0, k), i) == rules_at(ts, i),
    decreases ts.len() - i,
{
    let p = ts.subrange(0, k);
    lemma_rule_ends(ts, i);
    if ts[i] is AtKeyword {
        let e = at_rule_end(ts, i + 1);
        lemma_rules_end_after(ts, e);
        lemma_at_rule_prefix(ts, i + 1, k);
        lemma_rules_prefix(ts, e, k);
    } else {
        match qualified_rule_at(ts, i) {
            None => {
                assert(selector_at(ts, i) is None);
                assert(i == k);
            },
            Some((r, e)) => {
                lemma_rules_end_after(ts, e);
                let (sel, j) = selector_at(ts, i)->0;
                lemma_ends(ts, j, 1);
                let f = find_open(ts, j);
                lemma_ends(ts, f + 1, 1);
                lemma_find_open_prefix(ts, j, k);
                lemma_declarations_prefix(ts, f + 1, k);
                assert(selector_at(p, i) == selector_at(ts, i));
                assert(qualified_rule_at(p, i) == qualified_rule_at(ts, i));
                lemma_rules_prefix(ts, e, k);
            },
        }
    }
}

/// Where the parser gives up on a malformed rule before the end, the style sheet holds
/// exactly the rules of the tokens before that rule, at-rules passed over as usual:
/// nothing of the malformed rule or of what follows it counts.
pub proof fn lemma_rules_before_malformed(ts: Seq<CssTokenModel>)
    requires
        rules_end(ts, 0) < ts.len(),
    ensures
        rules_at(ts, 0) == rules_at(ts.subrange(0, rules_end(ts, 0)), 0),
{
    lemma_rules_end_after(ts, 0);
    lemma_rules_prefix(ts, 0, rules_end(ts, 0));
}

} // verus!
