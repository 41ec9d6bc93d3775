use crate::btree::BTree;
use crate::keys::{Key, Val};
use crate::model::{find_in, range_of, TreeView};
use crate::outside::{captures, regex_captures, regex_compiles};
use crate::pager::Pager;
use crate::values::{duplicate_all, Value, ValueView, VarChar, VarCharView, VARCHAR_MAX_LEN};
use vstd::prelude::*;
use vstd::string::*;
use vstd::utf8::*;

verus! {

/// A statement over the table: look up one key or every key, delete a key,
/// or insert a key with its value.
#[derive(Debug)]
pub enum Statement<K: Key, V: Val> {
    SelectOne(K),
    SelectAll,
    Delete(K),
    Insert((K, V)),
}

/// The model of a statement.
pub enum StatementView<KV, VV> {
    SelectOne(KV),
    SelectAll,
    Delete(KV),
    Insert(KV, VV),
}

impl<K: Key, V: Val> DeepView for Statement<K, V> {
    type V = StatementView<K::V, V::V>;

    open spec fn deep_view(&self) -> StatementView<K::V, V::V> {
        match self {
            Statement::SelectOne(k) => StatementView::SelectOne(k.deep_view()),
            Statement::SelectAll => StatementView::SelectAll,
            Statement::Delete(k) => StatementView::Delete(k.deep_view()),
            Statement::Insert((k, v)) => StatementView::Insert(k.deep_view(), v.deep_view()),
        }
    }
}

/// A command to the shell itself.
#[derive(Debug, Clone, Copy, PartialEq, Eq)]
pub enum MetaCommand {
    Exit,
}

/// The number that a row of decimal digits stands for.
pub open spec fn digits_value(bs: Seq<u8>) -> int
    decreases bs.len(),
{
    if bs.len() == 0 {
        0
    } else {
        10 * digits_value(bs.drop_last()) + (bs.last() - 48)
    }
}

/// Whether every byte is a decimal digit.
pub open spec fn all_digits(bs: Seq<u8>) -> bool {
    forall|i: int| 0 <= i < bs.len() ==> 48 <= #[trigger] bs[i] <= 57
}

/// The number that `bs` spell in decimal, with a minus sign before the
/// digits or without a sign; nothing where they spell none.
pub open spec fn decimal(bs: Seq<u8>) -> Option<int> {
    if bs.len() > 0 && bs[0] == 45 {
        if bs.len() > 1 && all_digits(bs.skip(1)) {
            Some(-digits_value(bs.skip(1)))
        } else {
            None
        }
    } else if bs.len() > 0 && all_digits(bs) {
        Some(digits_value(bs))
    } else {
        None
    }
}

/// The number that `bs` spell, where it is a 32-bit signed number.
pub open spec fn int_of(bs: Seq<u8>) -> Option<i32> {
    match decimal(bs) {
        Some(v) => if i32::MIN <= v <= i32::MAX {
            Some(v as i32)
        } else {
            None
        },
        None => None,
    }
}

/// More digits do not make a number smaller.
proof fn lemma_digits_grow(bs: Seq<u8>, k: int)
    requires
        all_digits(bs),
        0 <= k <= bs.len(),
    ensures
        0 <= digits_value(bs.take(k)) <= digits_value(bs),
    decreases bs.len() - k,
{
    if k == bs.len() {
        assert(bs.take(k) =~= bs);
        lemma_digits_grow_zero(bs);
    } else {
        let front = bs.drop_last();
        assert forall|i: int| 0 <= i < front.len() implies 48 <= #[trigger] front[i] <= 57 by {
            assert(front[i] == bs[i]);
        }
        lemma_digits_grow(front, k);
        assert(front.take(k) =~= bs.take(k));
        assert(48 <= bs[bs.len() - 1]);
    }
}

/// A row of digits stands for no negative number.
proof fn lemma_digits_grow_zero(bs: Seq<u8>)
    requires
        all_digits(bs),
    ensures
        0 <= digits_value(bs),
    decreases bs.len(),
{
    if bs.len() > 0 {
        let front = bs.drop_last();
        assert forall|i: int| 0 <= i < front.len() implies 48 <= #[trigger] front[i] <= 57 by {
            assert(front[i] == bs[i]);
        }
        lemma_digits_grow_zero(front);
        assert(48 <= bs[bs.len() - 1]);
    }
}

/// The 32-bit signed number that `bs` spell in decimal.
pub fn parse_int(bs: &[u8]) -> (r: Option<i32>)
    ensures
        r == int_of(bs@),
{
    if bs.len() == 0 {
        return None;
    }
    let negative: bool = bs[0] == 45;
    let start: usize = if negative {
        1
    } else {
        0
    };
    if bs.len() == start {
        return None;
    }
    let ghost digits = bs@.skip(start as int);
    assert(bs@.skip(0) =~= bs@);
    let mut acc: i64 = 0;
    let mut i: usize = start;
    assert(digits.take(0) =~= Seq::<u8>::empty());
    while i < bs.len()
        invariant
            start <= i <= bs.len(),
            start < bs.len(),
            negative == (bs@[0] == 45),
            start == if negative {
                1int
            } else {
                0int
            },
            digits == bs@.skip(start as int),
            !negative ==> digits == bs@,
            all_digits(digits.take(i - start)),
            acc == digits_value(digits.take(i - start)),
            0 <= acc <= 2147483648,
        decreases bs.len() - i,
    {
        let b: u8 = bs[i];
        if b < 48 || b > 57 {
            proof {
                assert(digits[i - start] == b);
            }
            return None;
        }
        let ghost before = digits.take(i - start);
        let ghost after = digits.take(i - start + 1);
        proof {
            assert(after.drop_last() =~= before);
            assert(after.last() == b);
            assert forall|j: int| 0 <= j < after.len() implies 48 <= #[trigger] after[j] <= 57 by {
                if j < before.len() {
                    assert(after[j] == before[j]);
                }
            }
        }
        acc = acc * 10 + (b - 48) as i64;
        if acc > 2147483648 {
            proof {
                if all_digits(digits) {
                    lemma_digits_grow(digits, i - start + 1);
                }
            }
            return None;
        }
        i += 1;
    }
    proof {
        assert(digits.take(i - start) =~= digits);
    }
    if negative {
        Some((-acc) as i32)
    } else if acc > 2147483647 {
        None
    } else {
        Some(acc as i32)
    }
}

/// The bytes of a text of one asterisk.
pub open spec fn is_star(text: Seq<char>) -> bool {
    encode_utf8(text) == seq![42u8]
}

/// The text value of `chars`.
pub open spec fn text_of(chars: Seq<char>) -> ValueView {
    ValueView::VarChar(VarCharView { val: chars, max_len: VARCHAR_MAX_LEN })
}

/// The statement that the groups of an insert stand for: the first group
/// spells the key, the second and third are the two texts of the row.
pub open spec fn insert_of(groups: Seq<Option<Seq<char>>>) -> Option<
    StatementView<i32, Seq<ValueView>>,
> {
    if groups.len() > 3 && groups[1] is Some && groups[2] is Some && groups[3] is Some {
        match int_of(encode_utf8(groups[1]->0)) {
            Some(id) => Some(
                StatementView::Insert(
                    id,
                    seq![text_of(groups[2]->0), text_of(groups[3]->0)],
                ),
            ),
            None => None,
        }
    } else {
        None
    }
}

/// The statement that the groups of a select stand for: the first group is
/// an asterisk, for every key, or spells one key.
pub open spec fn select_of(groups: Seq<Option<Seq<char>>>) -> Option<
    StatementView<i32, Seq<ValueView>>,
> {
    if groups.len() > 1 && groups[1] is Some {
        if is_star(groups[1]->0) {
            Some(StatementView::SelectAll)
        } else {
            match int_of(encode_utf8(groups[1]->0)) {
                Some(id) => Some(StatementView::SelectOne(id)),
                None => None,
            }
        }
    } else {
        None
    }
}

/// The statement that the groups of a delete stand for: the first group
/// spells the key.
pub open spec fn delete_of(groups: Seq<Option<Seq<char>>>) -> Option<
    StatementView<i32, Seq<ValueView>>,
> {
    if groups.len() > 1 && groups[1] is Some {
        match int_of(encode_utf8(groups[1]->0)) {
            Some(id) => Some(StatementView::Delete(id)),
            None => None,
        }
    } else {
        None
    }
}

/// The pattern of an insert: the word, a key, and two texts in single
/// quotes.
pub open spec fn insert_pattern() -> Seq<char> {
    "^insert\\s+(-?\\d+)\\s+'(.*)'\\s+'(.*)'$"@
}

/// The pattern of a select: the word, and a key or an asterisk.
pub open spec fn select_pattern() -> Seq<char> {
    "^select\\s+(-?\\d+|\\*)$"@
}

/// The pattern of a delete: the word and a key.
pub open spec fn delete_pattern() -> Seq<char> {
    "^delete\\s+(-?\\d+)$"@
}

/// Whether the three patterns compile.
pub open spec fn patterns_ok() -> bool {
    regex_compiles(insert_pattern()) && regex_compiles(select_pattern()) && regex_compiles(
        delete_pattern(),
    )
}

/// The statement that `text` stands for by the pattern `pattern` and the
/// reading `read` of its groups, or else what `otherwise` gives: nothing at
/// all where the pattern does not compile.
pub open spec fn by_pattern(
    pattern: Seq<char>,
    text: Seq<char>,
    read: spec_fn(Seq<Option<Seq<char>>>) -> Option<StatementView<i32, Seq<ValueView>>>,
    otherwise: Option<StatementView<i32, Seq<ValueView>>>,
) -> Option<StatementView<i32, Seq<ValueView>>> {
    if !regex_compiles(pattern) {
        None
    } else {
        match regex_captures(pattern, text) {
            Some(groups) => read(groups),
            None => otherwise,
        }
    }
}

/// The statement that `text` stands for: that of the first of the three
/// patterns that matches it. A pattern that does not compile ends the
/// search with nothing.
pub open spec fn statement_of(text: Seq<char>) -> Option<StatementView<i32, Seq<ValueView>>> {
    by_pattern(
        insert_pattern(),
        text,
        |g: Seq<Option<Seq<char>>>| insert_of(g),
        by_pattern(
            select_pattern(),
            text,
            |g: Seq<Option<Seq<char>>>| select_of(g),
            by_pattern(delete_pattern(), text, |g: Seq<Option<Seq<char>>>| delete_of(g), None),
        ),
    )
}

/// The key that a group spells.
fn group_int(groups: &Vec<Option<String>>, i: usize) -> (r: Option<i32>)
    requires
        i < groups.len(),
        groups[i as int] is Some,
    ensures
        r == int_of(encode_utf8(groups.deep_view()[i as int]->0)),
{
    match &groups[i] {
        Some(text) => parse_int(text.as_str().as_bytes()),
        None => None,
    }
}

/// The text that a group took.
fn group_text(groups: &Vec<Option<String>>, i: usize) -> (r: VarChar)
    requires
        i < groups.len(),
        groups[i as int] is Some,
    ensures
        ValueView::VarChar(r.deep_view()) == text_of(groups.deep_view()[i as int]->0),
{
    match &groups[i] {
        Some(text) => VarChar::new(text.as_str()),
        None => VarChar::new(""),
    }
}

/// The insert that the groups of a match of the insert pattern stand for.
/// Nothing where the key is no 32-bit signed number.
pub fn insert_statement(groups: &Vec<Option<String>>) -> (r: Option<Statement<i32, Vec<Value>>>)
    ensures
        r.deep_view() == insert_of(groups.deep_view()),
{
    if groups.len() > 3 && groups[1].is_some() && groups[2].is_some() && groups[3].is_some() {
        match group_int(groups, 1) {
            Some(id) => {
                let mut vals: Vec<Value> = Vec::new();
                vals.push(Value::VarChar(group_text(groups, 2)));
                vals.push(Value::VarChar(group_text(groups, 3)));
                proof {
                    assert(vals.deep_view() =~= seq![
                        text_of(groups.deep_view()[2]->0),
                        text_of(groups.deep_view()[3]->0),
                    ]);
                }
                Some(Statement::Insert((id, vals)))
            },
            None => None,
        }
    } else {
        None
    }
}

/// The select that the groups of a match of the select pattern stand for.
/// Nothing where the key is no 32-bit signed number.
pub fn select_statement(groups: &Vec<Option<String>>) -> (r: Option<Statement<i32, Vec<Value>>>)
    ensures
        r.deep_view() == select_of(groups.deep_view()),
{
    if groups.len() > 1 && groups[1].is_some() {
        let star: bool = match &groups[1] {
            Some(text) => {
                let bytes = text.as_str().as_bytes();
                let one = bytes.len() == 1 && bytes[0] == 42;
                assert(one == (bytes@ =~= seq![42u8]));
                one
            },
            None => false,
        };
        if star {
            Some(Statement::SelectAll)
        } else {
            match group_int(groups, 1) {
                Some(id) => Some(Statement::SelectOne(id)),
                None => None,
            }
        }
    } else {
        None
    }
}

/// The delete that the groups of a match of the delete pattern stand for.
/// Nothing where the key is no 32-bit signed number.
pub fn delete_statement(groups: &Vec<Option<String>>) -> (r: Option<Statement<i32, Vec<Value>>>)
    ensures
        r.deep_view() == delete_of(groups.deep_view()),
{
    if groups.len() > 1 && groups[1].is_some() {
        match group_int(groups, 1) {
            Some(id) => Some(Statement::Delete(id)),
            None => None,
        }
    } else {
        None
    }
}

/// Whether the three patterns of the statements compile. Where they do
/// not, no text stands for a statement.
pub fn patterns_compile() -> (r: bool)
    ensures
        r == patterns_ok(),
{
    captures("^insert\\s+(-?\\d+)\\s+'(.*)'\\s+'(.*)'$", "").is_some() && captures(
        "^select\\s+(-?\\d+|\\*)$",
        "",
    ).is_some() && captures("^delete\\s+(-?\\d+)$", "").is_some()
}

/// The statement that `s` stands for, where it is an insert of a key and
/// two texts, a select of a key or of every key, or a delete of a key.
pub fn parse_statement(s: &str) -> (r: Option<Statement<i32, Vec<Value>>>)
    ensures
        r.deep_view() == statement_of(s@),
{
    match captures("^insert\\s+(-?\\d+)\\s+'(.*)'\\s+'(.*)'$", s) {
        None => None,
        Some(Some(groups)) => insert_statement(&groups),
        Some(None) => match captures("^select\\s+(-?\\d+|\\*)$", s) {
            None => None,
            Some(Some(groups)) => select_statement(&groups),
            Some(None) => match captures("^delete\\s+(-?\\d+)$", s) {
                None => None,
                Some(Some(groups)) => delete_statement(&groups),
                Some(None) => None,
            },
        },
    }
}

/// The command that `cmd` names: the text `.exit` names the exit.
pub fn parse_meta(cmd: &str) -> (r: Option<MetaCommand>)
    ensures
        r is Some <==> encode_utf8(cmd@) == seq![46u8, 101u8, 120u8, 105u8, 116u8],
{
    let bytes = cmd.as_bytes();
    if bytes.len() == 5 && bytes[0] == 46 && bytes[1] == 101 && bytes[2] == 120 && bytes[3] == 105
        && bytes[4] == 116 {
        assert(bytes@ =~= seq![46u8, 101u8, 120u8, 105u8, 116u8]);
        Some(MetaCommand::Exit)
    } else {
        None
    }
}

/// The row that a select shows of a key and its value: the key, then the
/// values.
pub open spec fn row_of(key: i32, vals: Seq<ValueView>) -> Seq<ValueView> {
    seq![ValueView::Int(key)] + vals
}

/// The rows that a statement selects from the index: for a select of every
/// key, a row for each entry that is no tombstone, in ascending order of
/// the keys; for a select of one key, its row where a lookup finds it; for
/// any other statement, none.
pub open spec fn selected(
    view: TreeView<i32, Seq<ValueView>>,
    stmt: StatementView<i32, Seq<ValueView>>,
) -> Seq<Seq<ValueView>> {
    match stmt {
        StatementView::SelectAll => {
            let pairs = range_of::<i32, Seq<ValueView>>(view, i32::MIN, i32::MAX);
            Seq::new(pairs.len(), |i: int| row_of(pairs[i].0, pairs[i].1))
        },
        StatementView::SelectOne(k) => match find_in::<i32, Seq<ValueView>>(view, k) {
            Some(vals) => seq![row_of(k, vals)],
            None => Seq::empty(),
        },
        _ => Seq::empty(),
    }
}

/// The row of `key` and `vals`.
fn make_row(key: i32, vals: &Vec<Value>) -> (row: Vec<Value>)
    ensures
        row.deep_view() == row_of(key, vals.deep_view()),
{
    let mut row: Vec<Value> = Vec::new();
    row.push(Value::Int(key));
    let mut rest = duplicate_all(vals);
    let ghost head = row.deep_view();
    let ghost tail = rest.deep_view();
    row.append(&mut rest);
    proof {
        assert(head =~= seq![ValueView::Int(key)]);
        assert(row.deep_view() =~= head + tail);
    }
    row
}

/// The rows that `stmt` selects from the index.
pub fn do_select<P: Pager<i32, Vec<Value>>>(
    bt: &mut BTree<i32, Vec<Value>, P>,
    stmt: Statement<i32, Vec<Value>>,
) -> (rows: Vec<Vec<Value>>)
    requires
        old(bt).wf(),
    ensures
        final(bt).wf(),
        final(bt).view() == old(bt).view(),
        final(bt).branching() == old(bt).branching(),
        final(bt).unique() == old(bt).unique(),
        final(bt).room() == old(bt).room(),
        rows.deep_view() == selected(old(bt).view(), stmt.deep_view()),
{
    let mut rows: Vec<Vec<Value>> = Vec::new();
    match stmt {
        Statement::SelectAll => {
            let lo: i32 = i32::MIN;
            let hi: i32 = i32::MAX;
            let kvs = bt.find_range(&lo, &hi);
            let ghost pairs = kvs.deep_view();
            let mut i: usize = 0;
            assert(rows.deep_view() =~= Seq::new(0, |i: int| row_of(pairs[i].0, pairs[i].1)));
            while i < kvs.len()
                invariant
                    i <= kvs.len(),
                    pairs == kvs.deep_view(),
                    rows.deep_view() == Seq::new(i as nat, |j: int| row_of(pairs[j].0, pairs[j].1)),
                decreases kvs.len() - i,
            {
                let ghost before = rows.deep_view();
                assert(pairs[i as int] == (kvs[i as int].0, kvs[i as int].1.deep_view()));
                let row = make_row(kvs[i].0, &kvs[i].1);
                rows.push(row);
                proof {
                    assert(rows.deep_view() =~= before.push(row_of(pairs[i as int].0, pairs[i as int].1)));
                    assert(rows.deep_view() =~= Seq::new(
                        (i + 1) as nat,
                        |j: int| row_of(pairs[j].0, pairs[j].1),
                    ));
                }
                i += 1;
            }
        },
        Statement::SelectOne(k) => {
            match bt.find(&k) {
                Some(vals) => {
                    let row = make_row(k, &vals);
                    rows.push(row);
                    assert(rows.deep_view() =~= seq![row_of(k, vals.deep_view())]);
                },
                None => {
                    assert(rows.deep_view() =~= Seq::empty());
                },
            }
        },
        _ => {
            assert(rows.deep_view() =~= Seq::empty());
        },
    }
    rows
}

} // verus!
