//! The command line: which command the arguments ask for, and its fields.
//! The first argument is the program's name and is not read.
use crate::model::{
    opt_text, Command, CommandView, DeleteGroupCommand, DoneCommand, Error, ErrorView, ListCommand,
    MoveCommand, NewCommand, Prio, UpdateCommand, TID,
};
use vstd::prelude::*;

verus! {

/// What an argument is to the parser.
#[derive(PartialEq, Eq, Structural)]
pub enum Tok {
    /// `-g`: a group name follows.
    Group,
    /// `-a`, `-b`, `-c`: a priority.
    Level(Prio),
    /// `-d`: task ids to complete follow.
    Done,
    /// `-u`: the id of a task to update follows.
    Update,
    /// `-dg`: the name of a group to delete follows.
    DeleteGroup,
    /// `-m`: task ids to move follow.
    Move,
    /// Anything else.
    Word,
}

/// The kind of an argument.
pub open spec fn tok(s: Seq<char>) -> Tok {
    if s == seq!['-', 'g'] {
        Tok::Group
    } else if s == seq!['-', 'a'] {
        Tok::Level(Prio::A)
    } else if s == seq!['-', 'b'] {
        Tok::Level(Prio::B)
    } else if s == seq!['-', 'c'] {
        Tok::Level(Prio::C)
    } else if s == seq!['-', 'd'] {
        Tok::Done
    } else if s == seq!['-', 'u'] {
        Tok::Update
    } else if s == seq!['-', 'd', 'g'] {
        Tok::DeleteGroup
    } else if s == seq!['-', 'm'] {
        Tok::Move
    } else {
        Tok::Word
    }
}

/// The forms of the command line that are read option by option.
#[derive(PartialEq, Eq, Structural, Clone, Copy)]
pub enum Form {
    New,
    List,
    Update,
    DeleteGroup,
    Move,
}

/// What the options of a form have given so far; where an option is given
/// twice, the later counts.
pub struct Scan {
    pub group: Option<Seq<char>>,
    pub prio: Option<Prio>,
    pub words: Seq<Seq<char>>,
    pub tid: Option<TID>,
    pub ids: Option<Seq<char>>,
    pub target: Option<Seq<char>>,
}

/// Nothing given yet.
pub open spec fn empty_scan() -> Scan {
    Scan { group: None, prio: None, words: seq![], tid: None, ids: None, target: None }
}

/// Reads the arguments `a` of form `f` from position `i` on, after `st`.
/// `-g` takes a group name in every form but group deletion, and so do
/// the priorities; `-u` takes the id of the update form, `-dg` the group of
/// the deletion form, `-m` the id list of the move form. Any other argument
/// is a word of the task's name in the creation and update forms, and is
/// refused in the others. An option at the end without its value is
/// refused.
pub open spec fn scan(f: Form, a: Seq<Seq<char>>, i: int, st: Scan) -> Result<Scan, ErrorView>
    decreases a.len() + 1 - i,
{
    if i < 0 || i >= a.len() {
        Ok(st)
    } else {
        let t = a[i];
        match tok(t) {
            Tok::Group if f != Form::DeleteGroup => if i + 1 >= a.len() {
                Err(ErrorView::GroupMissing)
            } else {
                scan(f, a, i + 2, Scan { group: Some(a[i + 1]), ..st })
            },
            Tok::Level(p) if f != Form::DeleteGroup => scan(f, a, i + 1, Scan { prio: Some(p), ..st }),
            Tok::Update if f == Form::Update => if i + 1 >= a.len() {
                Err(ErrorView::TIDMissing)
            } else {
                match tid_value(a[i + 1]) {
                    Some(n) => scan(f, a, i + 2, Scan { tid: Some(n), ..st }),
                    None => Err(ErrorView::InvalidTID(a[i + 1])),
                }
            },
            Tok::DeleteGroup if f == Form::DeleteGroup => if i + 1 >= a.len() {
                Err(ErrorView::GroupMissing)
            } else {
                scan(f, a, i + 2, Scan { target: Some(a[i + 1]), ..st })
            },
            Tok::Move if f == Form::Move => if i + 1 >= a.len() {
                Err(ErrorView::TIDsMissing)
            } else {
                scan(f, a, i + 2, Scan { ids: Some(a[i + 1]), ..st })
            },
            _ => if f == Form::New || f == Form::Update {
                scan(f, a, i + 1, Scan { words: st.words.push(t), ..st })
            } else {
                Err(ErrorView::InvalidArgument(t))
            },
        }
    }
}

/// The value of the decimal digits `s`.
pub open spec fn digits_value(s: Seq<char>) -> nat
    decreases s.len(),
{
    if s.len() == 0 {
        0
    } else {
        digits_value(s.drop_last()) * 10 + (s.last() as nat - '0' as nat) as nat
    }
}

/// `s` is one or more decimal digits.
pub open spec fn all_digits(s: Seq<char>) -> bool {
    s.len() > 0 && forall|i: int| 0 <= i < s.len() ==> '0' <= #[trigger] s[i] <= '9'
}

/// The task id that `s` writes: decimal digits, after an optional `+`, whose
/// value fits.
pub open spec fn tid_value(s: Seq<char>) -> Option<TID> {
    let d = if s.len() > 0 && s[0] == '+' {
        s.drop_first()
    } else {
        s
    };
    if all_digits(d) && digits_value(d) <= TID::MAX {
        Some(digits_value(d) as TID)
    } else {
        None
    }
}

/// The parts of `s` between commas: one more than there are commas.
pub open spec fn split_commas(s: Seq<char>) -> Seq<Seq<char>>
    decreases s.len(),
{
    if s.len() == 0 {
        seq![seq![]]
    } else {
        let p = split_commas(s.drop_last());
        if s.last() == ',' {
            p.push(seq![])
        } else {
            p.update(p.len() - 1, p.last().push(s.last()))
        }
    }
}

/// The ids that the parts `ps` write, or the first part that is no id.
pub open spec fn ids_of(ps: Seq<Seq<char>>) -> Result<Seq<TID>, ErrorView>
    decreases ps.len(),
{
    if ps.len() == 0 {
        Ok(seq![])
    } else {
        match ids_of(ps.drop_last()) {
            Err(e) => Err(e),
            Ok(v) => match tid_value(ps.last()) {
                Some(n) => Ok(v.push(n)),
                None => Err(ErrorView::InvalidTID(ps.last())),
            },
        }
    }
}

/// The words `ws` joined by single spaces.
pub open spec fn join(ws: Seq<Seq<char>>) -> Seq<char>
    decreases ws.len(),
{
    if ws.len() == 0 {
        seq![]
    } else if ws.len() == 1 {
        ws[0]
    } else {
        join(ws.drop_last()) + seq![' '] + ws.last()
    }
}

/// The form that the arguments ask for, read from position `i` on: the
/// first argument that is neither a group option with its value nor a
/// priority decides; where there is none, it is a listing.
pub open spec fn form_of(a: Seq<Seq<char>>, i: int) -> Tok
    decreases a.len() + 1 - i,
{
    if i < 0 || i >= a.len() {
        Tok::Group
    } else {
        match tok(a[i]) {
            Tok::Group => form_of(a, i + 2),
            Tok::Level(_) => form_of(a, i + 1),
            t => t,
        }
    }
}

/// The creation form: the words make the task's name; group "Default" and
/// priority B unless given.
pub open spec fn new_spec(a: Seq<Seq<char>>) -> Result<CommandView, ErrorView> {
    match scan(Form::New, a, 1, empty_scan()) {
        Err(e) => Err(e),
        Ok(s) => Ok(
            CommandView::New {
                task: join(s.words),
                group: match s.group {
                    Some(g) => g,
                    None => seq!['D', 'e', 'f', 'a', 'u', 'l', 't'],
                },
                prio: match s.prio {
                    Some(p) => p,
                    None => Prio::B,
                },
            },
        ),
    }
}

/// The listing form.
pub open spec fn list_spec(a: Seq<Seq<char>>) -> Result<CommandView, ErrorView> {
    match scan(Form::List, a, 1, empty_scan()) {
        Err(e) => Err(e),
        Ok(s) => Ok(CommandView::List { group: s.group, prio: s.prio }),
    }
}

/// The completion form: exactly `-d` and a comma-separated list of ids.
pub open spec fn done_spec(a: Seq<Seq<char>>) -> Result<CommandView, ErrorView> {
    if a.len() < 2 {
        Err(ErrorView::TIDMissing)
    } else if a[1] != seq!['-', 'd'] {
        Err(ErrorView::InvalidArgument(a[1]))
    } else if a.len() > 3 {
        Err(ErrorView::InvalidArgument(join(a.subrange(3, a.len() as int))))
    } else if a.len() == 2 {
        Err(ErrorView::TIDMissing)
    } else {
        match ids_of(split_commas(a[2])) {
            Err(e) => Err(e),
            Ok(v) => Ok(CommandView::Done { tids: v }),
        }
    }
}

/// The update form: an id, and at least one of group, priority and name.
pub open spec fn update_spec(a: Seq<Seq<char>>) -> Result<CommandView, ErrorView> {
    match scan(Form::Update, a, 1, empty_scan()) {
        Err(e) => Err(e),
        Ok(s) => if s.tid is None {
            Err(ErrorView::TIDMissing)
        } else if s.group is None && s.prio is None && s.words.len() == 0 {
            Err(ErrorView::NothingToUpdate)
        } else {
            Ok(
                CommandView::Update {
                    tid: s.tid->0,
                    group: s.group,
                    prio: s.prio,
                    task: if s.words.len() == 0 {
                        None
                    } else {
                        Some(join(s.words))
                    },
                },
            )
        },
    }
}

/// The group deletion form.
pub open spec fn delete_group_spec(a: Seq<Seq<char>>) -> Result<CommandView, ErrorView> {
    match scan(Form::DeleteGroup, a, 1, empty_scan()) {
        Err(e) => Err(e),
        Ok(s) => match s.target {
            Some(g) => Ok(CommandView::DeleteGroup { group: g }),
            None => Err(ErrorView::GroupMissing),
        },
    }
}

/// The move form: ids, and a group or a priority or both.
pub open spec fn move_spec(a: Seq<Seq<char>>) -> Result<CommandView, ErrorView> {
    match scan(Form::Move, a, 1, empty_scan()) {
        Err(e) => Err(e),
        Ok(s) => if s.group is None && s.prio is None {
            Err(ErrorView::NothingToMove)
        } else if s.ids is None {
            Err(ErrorView::TIDsMissing)
        } else {
            match ids_of(split_commas(s.ids->0)) {
                Err(e) => Err(e),
                Ok(v) => Ok(CommandView::Move { group: s.group, prio: s.prio, tids: v }),
            }
        },
    }
}

/// The command that the arguments `a` ask for.
pub open spec fn parse_spec(a: Seq<Seq<char>>) -> Result<CommandView, ErrorView> {
    match form_of(a, 1) {
        Tok::Done => done_spec(a),
        Tok::Update => update_spec(a),
        Tok::DeleteGroup => delete_group_spec(a),
        Tok::Move => move_spec(a),
        Tok::Word => new_spec(a),
        _ => list_spec(a),
    }
}

/// What the options of a form have given so far.
pub struct Scanned {
    pub group: Option<String>,
    pub prio: Option<Prio>,
    pub words: Vec<String>,
    pub tid: Option<TID>,
    pub ids: Option<String>,
    pub target: Option<String>,
}

impl View for Scanned {
    type V = Scan;

    open spec fn view(&self) -> Scan {
        Scan {
            group: opt_text(self.group),
            prio: self.prio,
            words: self.words@.map_values(|w: String| w@),
            tid: self.tid,
            ids: opt_text(self.ids),
            target: opt_text(self.target),
        }
    }
}

/// The kind of argument `s`.
fn token(s: &String) -> (k: Tok)
    ensures
        k == tok(s@),
{
    let n = s.as_str().unicode_len();
    if n == 2 {
        let c0 = s.as_str().get_char(0);
        let c1 = s.as_str().get_char(1);
        assert(s@ =~= seq![c0, c1]);
        if c0 != '-' {
            return Tok::Word;
        }
        match c1 {
            'g' => Tok::Group,
            'a' => Tok::Level(Prio::A),
            'b' => Tok::Level(Prio::B),
            'c' => Tok::Level(Prio::C),
            'd' => Tok::Done,
            'u' => Tok::Update,
            'm' => Tok::Move,
            _ => Tok::Word,
        }
    } else if n == 3 {
        let c0 = s.as_str().get_char(0);
        let c1 = s.as_str().get_char(1);
        let c2 = s.as_str().get_char(2);
        assert(s@ =~= seq![c0, c1, c2]);
        if c0 == '-' && c1 == 'd' && c2 == 'g' {
            Tok::DeleteGroup
        } else {
            Tok::Word
        }
    } else {
        Tok::Word
    }
}

/// The task id that `s` writes, if it writes one.
pub fn parse_tid(s: &str) -> (r: Option<TID>)
    ensures
        r == tid_value(s@),
{
    let n = s.unicode_len();
    let mut start: usize = 0;
    if n > 0 && s.get_char(0) == '+' {
        start = 1;
    }
    let ghost d = s@.subrange(start as int, n as int);
    assert(d =~= if s@.len() > 0 && s@[0] == '+' { s@.drop_first() } else { s@ });
    if start >= n {
        assert(d.len() == 0);
        return None;
    }
    // the value so far, or one more than the largest id once it is exceeded
    let mut acc: u64 = 0;
    let mut i: usize = start;
    let cap: u64 = TID::MAX as u64 + 1;
    assert(s@.subrange(start as int, start as int) =~= Seq::<char>::empty());
    while i < n
        invariant
            start <= i <= n,
            n == s@.len(),
            d == s@.subrange(start as int, n as int),
            d == (if s@.len() > 0 && s@[0] == '+' { s@.drop_first() } else { s@ }),
            cap == TID::MAX as u64 + 1,
            forall|j: int| start <= j < i ==> '0' <= #[trigger] s@[j] <= '9',
            acc == if digits_value(s@.subrange(start as int, i as int)) < cap {
                digits_value(s@.subrange(start as int, i as int))
            } else {
                cap as nat
            },
        decreases n - i,
    {
        let c = s.get_char(i);
        if c < '0' || c > '9' {
            assert(d[i - start] == c);
            return None;
        }
        let ghost pre = s@.subrange(start as int, i as int);
        assert(s@.subrange(start as int, i + 1).drop_last() =~= pre);
        let dv = (c as u32 - '0' as u32) as u64;
        if acc < cap {
            acc = acc * 10 + dv;
            if acc > cap {
                acc = cap;
            }
        } else {
            assert(digits_value(s@.subrange(start as int, i + 1)) >= digits_value(pre) * 10) by (nonlinear_arith)
                requires
                    digits_value(s@.subrange(start as int, i + 1)) == digits_value(pre) * 10 + (c as nat - '0' as nat) as nat,
            ;
            assert(digits_value(pre) * 10 >= digits_value(pre)) by (nonlinear_arith);
        }
        i = i + 1;
    }
    assert(forall|j: int| 0 <= j < d.len() ==> #[trigger] d[j] == s@[j + start]);
    if acc < cap {
        Some(acc as TID)
    } else {
        None
    }
}

/// Where the ids of the first parts already fail, so do those of all.
proof fn lemma_ids_of_prefix(ps: Seq<Seq<char>>, k: int)
    requires
        0 <= k <= ps.len(),
        ids_of(ps.subrange(0, k)) is Err,
    ensures
        ids_of(ps) == ids_of(ps.subrange(0, k)),
    decreases ps.len() - k,
{
    if k < ps.len() {
        let q = ps.subrange(0, k + 1);
        assert(q.drop_last() =~= ps.subrange(0, k));
        lemma_ids_of_prefix(ps, k + 1);
    } else {
        assert(ps.subrange(0, k) =~= ps);
    }
}

/// The ids of the comma-separated list `s`, or the first part that is no id.
fn parse_ids(s: &str) -> (r: Result<Vec<TID>, Error>)
    ensures
        match r {
            Ok(v) => ids_of(split_commas(s@)) == Ok::<Seq<TID>, ErrorView>(v@),
            Err(e) => ids_of(split_commas(s@)) == Err::<Seq<TID>, ErrorView>(e@),
        },
{
    let n = s.unicode_len();
    let mut parts: Vec<String> = Vec::new();
    let mut start: usize = 0;
    let mut i: usize = 0;
    assert(s@.subrange(0, 0) =~= Seq::<char>::empty());
    while i < n
        invariant
            0 <= start <= i <= n,
            n == s@.len(),
            split_commas(s@.subrange(0, i as int)) == parts@.map_values(|p: String| p@).push(
                s@.subrange(start as int, i as int),
            ),
        decreases n - i,
    {
        let c = s.get_char(i);
        let ghost pv = parts@.map_values(|p: String| p@);
        assert(s@.subrange(0, i + 1).drop_last() =~= s@.subrange(0, i as int));
        if c == ',' {
            let ghost st0 = start;
            let part = String::from_str(s.substring_char(start, i));
            parts.push(part);
            start = i + 1;
            assert(parts@.map_values(|p: String| p@) =~= pv.push(s@.subrange(st0 as int, i as int)));
            assert(s@.subrange(start as int, i + 1) =~= Seq::<char>::empty());
        } else {
            assert(s@.subrange(start as int, i + 1) =~= s@.subrange(start as int, i as int).push(c));
        }
        i = i + 1;
    }
    let last = String::from_str(s.substring_char(start, n));
    parts.push(last);
    assert(s@.subrange(0, n as int) =~= s@);
    let ghost ps = parts@.map_values(|p: String| p@);
    assert(ps == split_commas(s@));
    let mut ids: Vec<TID> = Vec::new();
    let mut k: usize = 0;
    assert(ps.subrange(0, 0) =~= Seq::<Seq<char>>::empty());
    while k < parts.len()
        invariant
            0 <= k <= parts.len(),
            ps == parts@.map_values(|p: String| p@),
            ps == split_commas(s@),
            ids_of(ps.subrange(0, k as int)) == Ok::<Seq<TID>, ErrorView>(ids@),
        decreases parts.len() - k,
    {
        assert(ps.subrange(0, k + 1).drop_last() =~= ps.subrange(0, k as int));
        match parse_tid(parts[k].as_str()) {
            Some(t) => {
                ids.push(t);
            },
            None => {
                proof {
                    let q = ps.subrange(0, k + 1);
                    assert(q.last() == ps[k as int]);
                    assert(ps[k as int] == parts@[k as int]@);
                    assert(ids_of(q) == Err::<Seq<TID>, ErrorView>(ErrorView::InvalidTID(ps[k as int])));
                    lemma_ids_of_prefix(ps, k + 1);
                }
                return Err(Error::InvalidTID(parts[k].clone()));
            },
        }
        k = k + 1;
    }
    assert(ps.subrange(0, parts.len() as int) =~= ps);
    Ok(ids)
}

/// The words `ws` joined by single spaces.
fn join_words(ws: &Vec<String>) -> (r: String)
    ensures
        r@ == join(ws@.map_values(|w: String| w@)),
{
    let ghost wv = ws@.map_values(|w: String| w@);
    let mut r = String::new();
    if ws.len() == 0 {
        return r;
    }
    r.append(ws[0].as_str());
    let mut i: usize = 1;
    assert(wv.subrange(0, 1).drop_last() =~= Seq::<Seq<char>>::empty());
    while i < ws.len()
        invariant
            1 <= i <= ws.len(),
            wv == ws@.map_values(|w: String| w@),
            r@ == join(wv.subrange(0, i as int)),
        decreases ws.len() - i,
    {
        proof {
            reveal_strlit(" ");
        }
        r.append(" ");
        r.append(ws[i].as_str());
        assert(wv.subrange(0, i + 1).drop_last() =~= wv.subrange(0, i as int));
        assert(r@ =~= join(wv.subrange(0, i as int)) + seq![' '] + wv[i as int]);
        i = i + 1;
    }
    assert(wv.subrange(0, ws.len() as int) =~= wv);
    r
}

/// Reads the options of form `f` from `args`, as `scan` says.
fn scan_args(args: &[String], f: Form) -> (r: Result<Scanned, Error>)
    ensures
        match r {
            Ok(st) => scan(f, texts(args), 1, empty_scan()) == Ok::<Scan, ErrorView>(st@),
            Err(e) => scan(f, texts(args), 1, empty_scan()) == Err::<Scan, ErrorView>(e@),
        },
{
    let ghost a = texts(args);
    let mut st = Scanned {
        group: None,
        prio: None,
        words: Vec::new(),
        tid: None,
        ids: None,
        target: None,
    };
    assert(st@.words =~= Seq::<Seq<char>>::empty());
    let mut i: usize = 1;
    while i < args.len()
        invariant
            1 <= i,
            a == texts(args),
            scan(f, a, 1, empty_scan()) == scan(f, a, i as int, st@),
        decreases args.len() - i,
    {
        let t = &args[i];
        assert(a[i as int] == t@);
        let k = token(t);
        let has_next = i + 1 < args.len();
        if has_next {
            assert(a[i + 1] == args@[i + 1]@);
        }
        match k {
            Tok::Group if f != Form::DeleteGroup => {
                if !has_next {
                    return Err(Error::GroupMissing);
                }
                st.group = Some(args[i + 1].clone());
                i = i + 2;
            },
            Tok::Level(p) if f != Form::DeleteGroup => {
                st.prio = Some(p);
                i = i + 1;
            },
            Tok::Update if f == Form::Update => {
                if !has_next {
                    return Err(Error::TIDMissing);
                }
                match parse_tid(args[i + 1].as_str()) {
                    Some(n) => {
                        st.tid = Some(n);
                    },
                    None => {
                        return Err(Error::InvalidTID(args[i + 1].clone()));
                    },
                }
                i = i + 2;
            },
            Tok::DeleteGroup if f == Form::DeleteGroup => {
                if !has_next {
                    return Err(Error::GroupMissing);
                }
                st.target = Some(args[i + 1].clone());
                i = i + 2;
            },
            Tok::Move if f == Form::Move => {
                if !has_next {
                    return Err(Error::TIDsMissing);
                }
                st.ids = Some(args[i + 1].clone());
                i = i + 2;
            },
            _ => {
                if f == Form::New || f == Form::Update {
                    let ghost w0 = st.words@;
                    st.words.push(t.clone());
                    assert(st.words@.map_values(|w: String| w@) =~= w0.map_values(|w: String| w@).push(t@));
                    i = i + 1;
                } else {
                    return Err(Error::InvalidArgument(t.clone()));
                }
            },
        }
    }
    Ok(st)
}

/// The creation form, as `new_spec` says.
fn parse_cmd_new(args: &[String]) -> (r: Result<Command, Error>)
    ensures
        result_view(r) == new_spec(texts(args)),
{
    match scan_args(args, Form::New) {
        Err(e) => Err(e),
        Ok(st) => {
            let group = match st.group {
                Some(g) => g,
                None => {
                    proof {
                        reveal_strlit("Default");
                        assert("Default"@ =~= seq!['D', 'e', 'f', 'a', 'u', 'l', 't']);
                    }
                    String::from_str("Default")
                },
            };
            let prio = match st.prio {
                Some(p) => p,
                None => Prio::B,
            };
            let task = join_words(&st.words);
            Ok(Command::New(NewCommand { task, group, prio }))
        },
    }
}

/// The listing form, as `list_spec` says.
fn parse_cmd_list(args: &[String]) -> (r: Result<Command, Error>)
    ensures
        result_view(r) == list_spec(texts(args)),
{
    match scan_args(args, Form::List) {
        Err(e) => Err(e),
        Ok(st) => Ok(Command::List(ListCommand { group: st.group, prio: st.prio })),
    }
}

/// The completion form, as `done_spec` says.
fn parse_cmd_done(args: &[String]) -> (r: Result<Command, Error>)
    ensures
        result_view(r) == done_spec(texts(args)),
{
    let ghost a = texts(args);
    if args.len() < 2 {
        return Err(Error::TIDMissing);
    }
    assert(a[1] == args@[1]@);
    if token(&args[1]) != Tok::Done {
        return Err(Error::InvalidArgument(args[1].clone()));
    }
    if args.len() > 3 {
        let mut rest: Vec<String> = Vec::new();
        let mut i: usize = 3;
        while i < args.len()
            invariant
                3 <= i <= args.len(),
                a == texts(args),
                rest@.map_values(|w: String| w@) == a.subrange(3, i as int),
            decreases args.len() - i,
        {
            let ghost r0 = rest@;
            assert(a[i as int] == args@[i as int]@);
            rest.push(args[i].clone());
            assert(rest@.map_values(|w: String| w@) =~= r0.map_values(|w: String| w@).push(a[i as int]));
            assert(a.subrange(3, i + 1) =~= a.subrange(3, i as int).push(a[i as int]));
            i = i + 1;
        }
        return Err(Error::InvalidArgument(join_words(&rest)));
    }
    if args.len() == 2 {
        return Err(Error::TIDMissing);
    }
    assert(a[2] == args@[2]@);
    match parse_ids(args[2].as_str()) {
        Err(e) => Err(e),
        Ok(tids) => Ok(Command::Done(DoneCommand { tids })),
    }
}

/// The update form, as `update_spec` says.
fn parse_cmd_update(args: &[String]) -> (r: Result<Command, Error>)
    ensures
        result_view(r) == update_spec(texts(args)),
{
    match scan_args(args, Form::Update) {
        Err(e) => Err(e),
        Ok(st) => {
            let tid = match st.tid {
                Some(t) => t,
                None => {
                    return Err(Error::TIDMissing);
                },
            };
            if st.group.is_none() && st.prio.is_none() && st.words.len() == 0 {
                return Err(Error::NothingToUpdate);
            }
            let task = if st.words.len() == 0 {
                None
            } else {
                Some(join_words(&st.words))
            };
            Ok(Command::Update(UpdateCommand { tid, group: st.group, prio: st.prio, task }))
        },
    }
}

/// The group deletion form, as `delete_group_spec` says.
fn parse_cmd_deletegroup(args: &[String]) -> (r: Result<Command, Error>)
    ensures
        result_view(r) == delete_group_spec(texts(args)),
{
    match scan_args(args, Form::DeleteGroup) {
        Err(e) => Err(e),
        Ok(st) => match st.target {
            Some(group) => Ok(Command::DeleteGroup(DeleteGroupCommand { group })),
            None => Err(Error::GroupMissing),
        },
    }
}

/// The move form, as `move_spec` says.
fn parse_cmd_move(args: &[String]) -> (r: Result<Command, Error>)
    ensures
        result_view(r) == move_spec(texts(args)),
{
    match scan_args(args, Form::Move) {
        Err(e) => Err(e),
        Ok(st) => {
            if st.group.is_none() && st.prio.is_none() {
                return Err(Error::NothingToMove);
            }
            match st.ids {
                None => Err(Error::TIDsMissing),
                Some(ids) => match parse_ids(ids.as_str()) {
                    Err(e) => Err(e),
                    Ok(tids) => Ok(Command::Move(MoveCommand { group: st.group, prio: st.prio, tids })),
                },
            }
        },
    }
}

/// The command that the command line `args` asks for; `args[0]`, the
/// program's name, is not read.
pub fn parse(args: &[String]) -> (r: Result<Command, Error>)
    ensures
        result_view(r) == parse_spec(texts(args)),
{
    let ghost a = texts(args);
    let mut i: usize = 1;
    let mut kind = Tok::Group;
    let mut found = false;
    while i < args.len() && !found
        invariant
            1 <= i,
            a == texts(args),
            found ==> kind == form_of(a, 1),
            !found ==> kind == Tok::Group && form_of(a, 1) == form_of(a, i as int),
        decreases args.len() - i + if found { 0int } else { 1int },
    {
        assert(a[i as int] == args@[i as int]@);
        match token(&args[i]) {
            Tok::Group => {
                assert(form_of(a, i as int) == form_of(a, i + 2));
                i = if args.len() - i > 2 { i + 2 } else { args.len() };
            },
            Tok::Level(_) => {
                i = i + 1;
            },
            t => {
                kind = t;
                found = true;
            },
        }
    }
    assert(form_of(a, 1) == kind);
    match kind {
        Tok::Done => parse_cmd_done(args),
        Tok::Update => parse_cmd_update(args),
        Tok::DeleteGroup => parse_cmd_deletegroup(args),
        Tok::Move => parse_cmd_move(args),
        Tok::Word => parse_cmd_new(args),
        _ => parse_cmd_list(args),
    }
}

/// The view of a parse result.
pub open spec fn result_view(r: Result<Command, Error>) -> Result<CommandView, ErrorView> {
    match r {
        Ok(c) => Ok(c@),
        Err(e) => Err(e@),
    }
}

/// The texts of the arguments.
pub open spec fn texts(args: &[String]) -> Seq<Seq<char>> {
    args@.map_values(|s: String| s@)
}

} // verus!
