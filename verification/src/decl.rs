//! Declarations streamed from the shell on fd 3.
//!
//! Records are NUL-delimited fields terminated by a newline. Bash has already
//! word-split each declaration, so fields are passed through as argv and never
//! re-parsed here: tails contain spaces, quotes and `#`.

use vstd::prelude::*;

use crate::text::{
    chars_of, debug_quote, debug_text, dec, dec_chars, has_char, is_text, lowercase, parse_u32,
    parse_u32_chars, push_chars, split, split_chars, string_of, to_lowercase, views,
};

verus! {

/// A declaration: an alias defines a set, a rule a line of a chain.
#[derive(Debug, PartialEq, Eq)]
pub enum Decl {
    Alias(Alias),
    Rule(Rule),
}

#[derive(Debug, PartialEq, Eq)]
pub struct Alias {
    pub name: String,
    /// Hostname, address, CIDR, or the literal `any`.
    pub host: String,
    pub port: Option<String>,
    pub proto: Option<String>,
    pub origin: Origin,
}

#[derive(Debug, PartialEq, Eq)]
pub struct Rule {
    pub table: String,
    /// Chain as written, `+` prefix retained: it selects a global chain.
    pub chain: String,
    pub src: String,
    pub dst: String,
    /// Everything after src/dst, one element per shell word.
    pub tail: Vec<String>,
    pub origin: Origin,
}

/// Where a declaration came from, for diagnostics and for deriving chain names.
#[derive(Debug, PartialEq, Eq, Clone)]
pub struct Origin {
    pub file: String,
    pub line: u32,
}

#[derive(Debug)]
pub struct ParseError {
    pub record: u64,
    pub message: String,
}

/// The value of an `Origin`.
pub struct OriginView {
    pub file: Seq<char>,
    pub line: u32,
}

pub struct AliasView {
    pub name: Seq<char>,
    pub host: Seq<char>,
    pub port: Option<Seq<char>>,
    pub proto: Option<Seq<char>>,
    pub origin: OriginView,
}

pub struct RuleView {
    pub table: Seq<char>,
    pub chain: Seq<char>,
    pub src: Seq<char>,
    pub dst: Seq<char>,
    pub tail: Seq<Seq<char>>,
    pub origin: OriginView,
}

pub enum DeclView {
    Alias(AliasView),
    Rule(RuleView),
}

pub struct ParseErrorView {
    pub record: u64,
    pub message: Seq<char>,
}

pub open spec fn opt_view(o: Option<String>) -> Option<Seq<char>> {
    match o {
        Some(s) => Some(s@),
        None => None,
    }
}

impl View for Origin {
    type V = OriginView;

    open spec fn view(&self) -> OriginView {
        OriginView { file: self.file@, line: self.line }
    }
}

impl View for Alias {
    type V = AliasView;

    open spec fn view(&self) -> AliasView {
        AliasView {
            name: self.name@,
            host: self.host@,
            port: opt_view(self.port),
            proto: opt_view(self.proto),
            origin: self.origin@,
        }
    }
}

impl View for Rule {
    type V = RuleView;

    open spec fn view(&self) -> RuleView {
        RuleView {
            table: self.table@,
            chain: self.chain@,
            src: self.src@,
            dst: self.dst@,
            tail: self.tail.deep_view(),
            origin: self.origin@,
        }
    }
}

impl View for Decl {
    type V = DeclView;

    open spec fn view(&self) -> DeclView {
        match self {
            Decl::Alias(a) => DeclView::Alias(a@),
            Decl::Rule(r) => DeclView::Rule(r@),
        }
    }
}

impl DeepView for Decl {
    type V = DeclView;

    open spec fn deep_view(&self) -> DeclView {
        self@
    }
}

impl DeepView for Origin {
    type V = OriginView;

    open spec fn deep_view(&self) -> OriginView {
        self@
    }
}

impl View for ParseError {
    type V = ParseErrorView;

    open spec fn view(&self) -> ParseErrorView {
        ParseErrorView { record: self.record, message: self.message@ }
    }
}

/// How an origin is printed: `file:line`.
pub open spec fn origin_text(o: OriginView) -> Seq<char> {
    o.file + ":"@ + dec(o.line as nat)
}

/// How a parse error is printed: `record N: message`.
pub open spec fn parse_error_text(e: ParseErrorView) -> Seq<char> {
    "record "@ + dec(e.record as nat) + ": "@ + e.message
}

impl Origin {
    /// A copy with the same file and line.
    pub(crate) fn duplicate(&self) -> (o: Origin)
        ensures
            o@ == self@,
    {
        Origin { file: self.file.clone(), line: self.line }
    }

    /// `file:line`, how an origin is printed in messages.
    pub fn to_string(&self) -> (s: String)
        ensures
            s@ == origin_text(self@),
    {
        let mut s = String::new();
        s.append(self.file.as_str());
        s.append(":");
        let d = dec_chars(self.line as u128);
        push_chars(&mut s, d.as_slice());
        s
    }
}

impl ParseError {
    /// `record N: message`, how a parse error is printed in messages.
    pub fn to_string(&self) -> (s: String)
        ensures
            s@ == parse_error_text(self@),
    {
        let mut s = String::from_str("record ");
        let d = dec_chars(self.record as u128);
        push_chars(&mut s, d.as_slice());
        s.append(": ");
        s.append(self.message.as_str());
        s
    }
}


/// The non-empty elements, in order.
pub open spec fn nonempty(s: Seq<Seq<char>>) -> Seq<Seq<char>>
    decreases s.len(),
{
    if s.len() == 0 {
        Seq::empty()
    } else {
        let r = nonempty(s.drop_last());
        if s.last().len() > 0 {
            r.push(s.last())
        } else {
            r
        }
    }
}

pub open spec fn refuse(record: u64, message: Seq<char>) -> Result<DeclView, ParseErrorView> {
    Err(ParseErrorView { record, message })
}

/// An alias record after KIND, file and line.
pub open spec fn alias_record(rest: Seq<Seq<char>>, origin: OriginView, record: u64) -> Result<DeclView, ParseErrorView> {
    if rest.len() < 2 {
        refuse(record, "alias needs NAME and HOST"@)
    } else {
        let name = rest[0];
        let host = rest[1];
        if name.len() == 0 {
            refuse(record, "alias name is empty"@)
        } else if name.contains('.') || name.contains(':') {
            refuse(record, "alias name "@ + debug_text(name) + " contains '.' or ':'"@)
        } else if host.len() == 0 {
            refuse(record, "alias "@ + name + ": host is empty"@)
        } else {
            let opt = nonempty(rest.skip(2));
            Ok(DeclView::Alias(AliasView {
                name,
                host,
                port: if opt.len() > 0 { Some(opt[0]) } else { None },
                proto: if opt.len() > 1 { Some(lowercase(opt[1])) } else { None },
                origin,
            }))
        }
    }
}

/// A rule record after KIND, file and line.
pub open spec fn rule_record(rest: Seq<Seq<char>>, origin: OriginView, record: u64) -> Result<DeclView, ParseErrorView> {
    if rest.len() < 4 {
        refuse(record, "rule needs TABLE CHAIN SOURCE DESTINATION"@)
    } else if rest[0].len() == 0 {
        refuse(record, "rule table is empty"@)
    } else if rest[1].len() == 0 {
        refuse(record, "rule chain is empty"@)
    } else if rest[2].len() == 0 {
        refuse(record, "rule source is empty"@)
    } else if rest[3].len() == 0 {
        refuse(record, "rule destination is empty"@)
    } else {
        Ok(DeclView::Rule(RuleView {
            table: rest[0],
            chain: lowercase(rest[1]),
            src: rest[2],
            dst: rest[3],
            tail: rest.skip(4),
            origin,
        }))
    }
}

/// One record, given as its fields: KIND, file, line, then the verb's own.
pub open spec fn record_decl(fields: Seq<Seq<char>>, record: u64) -> Result<DeclView, ParseErrorView> {
    if fields.len() < 3 {
        refuse(record, "expected at least 3 fields, got "@ + dec(fields.len()))
    } else {
        let kind = fields[0];
        match parse_u32(fields[2]) {
            None => refuse(record, "line number is not a number: "@ + debug_text(fields[2])),
            Some(line) => {
                let origin = OriginView { file: fields[1], line };
                if kind == "alias"@ {
                    alias_record(fields.skip(3), origin, record)
                } else if kind == "rule"@ {
                    rule_record(fields.skip(3), origin, record)
                } else {
                    refuse(record, "unknown declaration kind "@ + debug_text(kind))
                }
            }
        }
    }
}

/// The declarations of a stream's lines: empty lines are skipped, the others
/// are records numbered from 1, and the first record that does not parse is
/// the error.
pub open spec fn parse_lines(lines: Seq<Seq<char>>) -> Result<Seq<DeclView>, ParseErrorView>
    decreases lines.len(),
{
    if lines.len() == 0 {
        Ok(Seq::empty())
    } else {
        match parse_lines(lines.drop_last()) {
            Err(e) => Err(e),
            Ok(ds) => {
                if lines.last().len() == 0 {
                    Ok(ds)
                } else {
                    match record_decl(split(lines.last(), '\0'), nonempty(lines).len() as u64) {
                        Ok(d) => Ok(ds.push(d)),
                        Err(e) => Err(e),
                    }
                }
            }
        }
    }
}

/// What `parse` returns for a stream.
pub open spec fn parse_stream(input: Seq<char>) -> Result<Seq<DeclView>, ParseErrorView> {
    parse_lines(split(input, '\n'))
}

pub open spec fn decls_result(r: Result<Vec<Decl>, ParseError>) -> Result<Seq<DeclView>, ParseErrorView> {
    match r {
        Ok(ds) => Ok(ds.deep_view()),
        Err(e) => Err(e@),
    }
}

proof fn lemma_parse_lines_error(lines: Seq<Seq<char>>, i: int)
    requires
        0 <= i <= lines.len(),
        parse_lines(lines.take(i)) is Err,
    ensures
        parse_lines(lines) == parse_lines(lines.take(i)),
    decreases lines.len() - i,
{
    if i < lines.len() {
        assert(lines.take(i + 1).drop_last() =~= lines.take(i));
        lemma_parse_lines_error(lines, i + 1);
    } else {
        assert(lines.take(i) =~= lines);
    }
}

fn perror(record: u64, message: String) -> (r: Result<Decl, ParseError>)
    ensures
        r matches Err(e) && e@ == (ParseErrorView { record, message: message@ }),
{
    Err(ParseError { record, message })
}

fn text_then(a: &str, b: &[char], c: &str) -> (s: String)
    ensures
        s@ == a@ + b@ + c@,
{
    let mut s = String::from_str(a);
    push_chars(&mut s, b);
    s.append(c);
    s
}

fn text_and(a: &str, b: &[char]) -> (s: String)
    ensures
        s@ == a@ + b@,
{
    let mut s = String::from_str(a);
    push_chars(&mut s, b);
    s
}

fn quoted(v: &[char]) -> (s: Vec<char>)
    ensures
        s@ == debug_text(v@),
{
    let t = string_of(v);
    let q = debug_quote(t.as_str());
    chars_of(q.as_str())
}

fn strings_from(v: &Vec<Vec<char>>, from: usize) -> (r: Vec<String>)
    requires
        from <= v@.len(),
    ensures
        r.deep_view() == views(v@).skip(from as int),
{
    let mut r: Vec<String> = Vec::new();
    let mut i: usize = from;
    let ghost w = views(v@).skip(from as int);
    while i < v.len()
        invariant
            from <= i <= v@.len(),
            w == views(v@).skip(from as int),
            r.deep_view() == w.take(i - from),
        decreases v@.len() - i,
    {
        let ghost before = r.deep_view();
        let s = string_of(v[i].as_slice());
        r.push(s);
        assert(w[i - from] == v@[i as int]@);
        assert(r.deep_view() =~= before.push(s@));
        i = i + 1;
        assert(r.deep_view() =~= w.take(i - from));
    }
    assert(w.take(i - from) =~= w);
    r
}

fn parse_alias(fields: &Vec<Vec<char>>, origin: Origin, record: u64) -> (r: Result<Decl, ParseError>)
    requires
        fields@.len() >= 3,
    ensures
        decl_result(r) == alias_record(views(fields@).skip(3), origin@, record),
{
    let ghost rv = views(fields@).skip(3);
    if fields.len() < 5 {
        return perror(record, String::from_str("alias needs NAME and HOST"));
    }
    let name = &fields[3];
    let host = &fields[4];
    assert(rv[0] == name@ && rv[1] == host@);
    if name.len() == 0 {
        return perror(record, String::from_str("alias name is empty"));
    }
    if has_char(name.as_slice(), '.') || has_char(name.as_slice(), ':') {
        let q = quoted(name.as_slice());
        return perror(record, text_then("alias name ", q.as_slice(), " contains '.' or ':'"));
    }
    if host.len() == 0 {
        return perror(record, text_then("alias ", name.as_slice(), ": host is empty"));
    }
    let mut opt: Vec<String> = Vec::new();
    let mut j: usize = 5;
    let ghost tail = rv.skip(2);
    while j < fields.len()
        invariant
            5 <= j <= fields@.len(),
            rv == views(fields@).skip(3),
            tail == rv.skip(2),
            opt.deep_view() == nonempty(tail.take(j - 5)),
        decreases fields@.len() - j,
    {
        proof {
            assert(tail.take(j - 4).drop_last() =~= tail.take(j - 5));
            assert(tail.take(j - 4).last() == fields@[j as int]@);
        }
        if fields[j].len() > 0 {
            opt.push(string_of(fields[j].as_slice()));
        }
        j = j + 1;
        assert(opt.deep_view() =~= nonempty(tail.take(j - 5)));
    }
    assert(tail.take(j - 5) =~= tail);
    let port = if opt.len() > 0 { Some(opt[0].clone()) } else { None };
    let proto = if opt.len() > 1 { Some(to_lowercase(opt[1].as_str())) } else { None };
    Ok(Decl::Alias(Alias {
        name: string_of(name.as_slice()),
        host: string_of(host.as_slice()),
        port,
        proto,
        origin,
    }))
}

fn parse_rule(fields: &Vec<Vec<char>>, origin: Origin, record: u64) -> (r: Result<Decl, ParseError>)
    requires
        fields@.len() >= 3,
    ensures
        decl_result(r) == rule_record(views(fields@).skip(3), origin@, record),
{
    let ghost rv = views(fields@).skip(3);
    if fields.len() < 7 {
        return perror(record, String::from_str("rule needs TABLE CHAIN SOURCE DESTINATION"));
    }
    assert(rv[0] == fields@[3]@ && rv[1] == fields@[4]@ && rv[2] == fields@[5]@ && rv[3] == fields@[6]@);
    if fields[3].len() == 0 {
        return perror(record, String::from_str("rule table is empty"));
    }
    if fields[4].len() == 0 {
        return perror(record, String::from_str("rule chain is empty"));
    }
    if fields[5].len() == 0 {
        return perror(record, String::from_str("rule source is empty"));
    }
    if fields[6].len() == 0 {
        return perror(record, String::from_str("rule destination is empty"));
    }
    let chain = string_of(fields[4].as_slice());
    let tail = strings_from(fields, 7);
    assert(views(fields@).skip(7) =~= rv.skip(4));
    Ok(Decl::Rule(Rule {
        table: string_of(fields[3].as_slice()),
        chain: to_lowercase(chain.as_str()),
        src: string_of(fields[5].as_slice()),
        dst: string_of(fields[6].as_slice()),
        tail,
        origin,
    }))
}

pub open spec fn decl_result(r: Result<Decl, ParseError>) -> Result<DeclView, ParseErrorView> {
    match r {
        Ok(d) => Ok(d@),
        Err(e) => Err(e@),
    }
}

/// Parse one NUL-delimited record.
///
/// Layout: KIND, file, line, then the verb's own fields.
fn parse_record(fields: &Vec<Vec<char>>, record: u64) -> (r: Result<Decl, ParseError>)
    ensures
        decl_result(r) == record_decl(views(fields@), record),
{
    let ghost fv = views(fields@);
    if fields.len() < 3 {
        let d = dec_chars(fields.len() as u128);
        return perror(record, text_and("expected at least 3 fields, got ", d.as_slice()));
    }
    assert(fv[0] == fields@[0]@ && fv[1] == fields@[1]@ && fv[2] == fields@[2]@);
    let line = match parse_u32_chars(fields[2].as_slice()) {
        Some(n) => n,
        None => {
            let q = quoted(fields[2].as_slice());
            return perror(record, text_and("line number is not a number: ", q.as_slice()));
        },
    };
    let origin = Origin { file: string_of(fields[1].as_slice()), line };
    if is_text(fields[0].as_slice(), "alias") {
        parse_alias(fields, origin, record)
    } else if is_text(fields[0].as_slice(), "rule") {
        parse_rule(fields, origin, record)
    } else {
        let q = quoted(fields[0].as_slice());
        perror(record, text_and("unknown declaration kind ", q.as_slice()))
    }
}


/// Parse a whole stream. Records are newline-terminated, fields NUL-separated.
pub fn parse(input: &str) -> (r: Result<Vec<Decl>, ParseError>)
    ensures
        decls_result(r) == parse_stream(input@),
{
    let text = chars_of(input);
    let lines = split_chars(text.as_slice(), '\n');
    let ghost lv = views(lines@);
    let mut out: Vec<Decl> = Vec::new();
    let mut count: usize = 0;
    let mut i: usize = 0;
    assert(lv.take(0) =~= Seq::<Seq<char>>::empty());
    assert(out.deep_view() =~= Seq::<DeclView>::empty());
    while i < lines.len()
        invariant
            i <= lines@.len(),
            lv == views(lines@),
            lv == split(input@, '\n'),
            parse_lines(lv.take(i as int)) == Ok::<Seq<DeclView>, ParseErrorView>(out.deep_view()),
            count == nonempty(lv.take(i as int)).len(),
            count <= i,
        decreases lines@.len() - i,
    {
        let ghost pre = lv.take(i as int);
        let ghost now = lv.take(i + 1);
        assert(now.drop_last() =~= pre);
        assert(now.last() == lines@[i as int]@);
        if lines[i].len() > 0 {
            let fields = split_chars(lines[i].as_slice(), '\0');
            count = count + 1;
            let record = count as u64;
            match parse_record(&fields, record) {
                Ok(d) => {
                    let ghost before = out.deep_view();
                    out.push(d);
                    assert(out.deep_view() =~= before.push(d@));
                },
                Err(e) => {
                    proof {
                        lemma_parse_lines_error(lv, i + 1);
                    }
                    return Err(e);
                },
            }
        }
        i = i + 1;
    }
    assert(lv.take(i as int) =~= lv);
    Ok(out)
}

proof fn lemma_nonempty_is_filter(s: Seq<Seq<char>>)
    ensures
        nonempty(s) == s.filter(|l: Seq<char>| l.len() > 0),
    decreases s.len(),
{
    let pred = |l: Seq<char>| l.len() > 0;
    reveal(Seq::filter);
    if s.len() > 0 {
        lemma_nonempty_is_filter(s.drop_last());
    } else {
        assert(nonempty(s) =~= s);
    }
}

/// A record's fields land in its declaration as written: a rule's table,
/// source, destination and tail are its fields, its chain lowercased; an
/// alias's name and host are its fields; the origin is the file and line
/// fields.
proof fn lemma_record_fields(fields: Seq<Seq<char>>, record: u64)
    ensures
        record_decl(fields, record) matches Ok(DeclView::Rule(r)) ==> {
            &&& fields.len() >= 7
            &&& fields[0] == "rule"@
            &&& r.table == fields[3]
            &&& r.chain == lowercase(fields[4])
            &&& r.src == fields[5]
            &&& r.dst == fields[6]
            &&& r.tail == fields.skip(7)
            &&& r.origin.file == fields[1]
            &&& parse_u32(fields[2]) == Some(r.origin.line)
        },
        record_decl(fields, record) matches Ok(DeclView::Alias(a)) ==> {
            &&& fields.len() >= 5
            &&& fields[0] == "alias"@
            &&& a.name == fields[3]
            &&& a.host == fields[4]
            &&& a.port == (if fields.skip(5).filter(|x: Seq<char>| x.len() > 0).len() > 0 {
                Some(fields.skip(5).filter(|x: Seq<char>| x.len() > 0)[0])
            } else {
                None
            })
            &&& a.proto == (if fields.skip(5).filter(|x: Seq<char>| x.len() > 0).len() > 1 {
                Some(lowercase(fields.skip(5).filter(|x: Seq<char>| x.len() > 0)[1]))
            } else {
                None
            })
            &&& a.origin.file == fields[1]
            &&& parse_u32(fields[2]) == Some(a.origin.line)
        },
{
    if fields.len() >= 3 {
        let rest = fields.skip(3);
        if rest.len() >= 4 {
            assert(rest[0] == fields[3] && rest[1] == fields[4] && rest[2] == fields[5] && rest[3] == fields[6]);
            assert(rest.skip(4) =~= fields.skip(7));
        }
        if rest.len() >= 2 {
            assert(rest[0] == fields[3] && rest[1] == fields[4]);
            assert(rest.skip(2) =~= fields.skip(5));
            lemma_nonempty_is_filter(fields.skip(5));
        }
    }
}

/// Parsing keeps what was written: the declarations are the stream's
/// non-empty lines in order, one each, and each takes its table, source,
/// destination, tail, name, host, file and line from its NUL-separated fields
/// exactly as written, an alias's port and protocol being its first and second
/// non-empty optional fields; only a rule's chain and an alias's protocol are
/// lowercased.
pub proof fn lemma_parse_keeps_fields(input: Seq<char>)
    ensures
        parse_stream(input) matches Ok(ds) ==> {
            let lines = split(input, '\n').filter(|l: Seq<char>| l.len() > 0);
            &&& ds.len() == lines.len()
            &&& forall|i: int|
                0 <= i < ds.len() ==> {
                    let f = split(lines[i], '\0');
                    &&& (#[trigger] ds[i] matches DeclView::Rule(r) ==> {
                        &&& f.len() >= 7
                        &&& f[0] == "rule"@
                        &&& r.table == f[3]
                        &&& r.chain == lowercase(f[4])
                        &&& r.src == f[5]
                        &&& r.dst == f[6]
                        &&& r.tail == f.skip(7)
                        &&& r.origin.file == f[1]
                        &&& parse_u32(f[2]) == Some(r.origin.line)
                    })
                    &&& (ds[i] matches DeclView::Alias(a) ==> {
                        &&& f.len() >= 5
                        &&& f[0] == "alias"@
                        &&& a.name == f[3]
                        &&& a.host == f[4]
                        &&& a.port == (if f.skip(5).filter(|x: Seq<char>| x.len() > 0).len() > 0 {
                            Some(f.skip(5).filter(|x: Seq<char>| x.len() > 0)[0])
                        } else {
                            None
                        })
                        &&& a.proto == (if f.skip(5).filter(|x: Seq<char>| x.len() > 0).len() > 1 {
                            Some(lowercase(f.skip(5).filter(|x: Seq<char>| x.len() > 0)[1]))
                        } else {
                            None
                        })
                        &&& a.origin.file == f[1]
                        &&& parse_u32(f[2]) == Some(a.origin.line)
                    })
                }
        },
{
    let all = split(input, '\n');
    lemma_nonempty_is_filter(all);
    lemma_parse_lines_fields(all);
}

proof fn lemma_parse_lines_fields(lines: Seq<Seq<char>>)
    ensures
        parse_lines(lines) matches Ok(ds) ==> {
            &&& ds.len() == nonempty(lines).len()
            &&& forall|i: int|
                0 <= i < ds.len() ==> record_decl(split(nonempty(lines)[i], '\0'), (i + 1) as u64) == Ok::<
                    DeclView,
                    ParseErrorView,
                >(#[trigger] ds[i])
        },
        parse_lines(lines) matches Ok(ds) ==> forall|i: int|
            0 <= i < ds.len() ==> {
                let f = split(nonempty(lines)[i], '\0');
                &&& (#[trigger] ds[i] matches DeclView::Rule(r) ==> {
                    &&& f.len() >= 7
                    &&& f[0] == "rule"@
                    &&& r.table == f[3]
                    &&& r.chain == lowercase(f[4])
                    &&& r.src == f[5]
                    &&& r.dst == f[6]
                    &&& r.tail == f.skip(7)
                    &&& r.origin.file == f[1]
                    &&& parse_u32(f[2]) == Some(r.origin.line)
                })
                &&& (ds[i] matches DeclView::Alias(a) ==> {
                    &&& f.len() >= 5
                    &&& f[0] == "alias"@
                    &&& a.name == f[3]
                    &&& a.host == f[4]
                    &&& a.port == (if f.skip(5).filter(|x: Seq<char>| x.len() > 0).len() > 0 {
                        Some(f.skip(5).filter(|x: Seq<char>| x.len() > 0)[0])
                    } else {
                        None
                    })
                    &&& a.proto == (if f.skip(5).filter(|x: Seq<char>| x.len() > 0).len() > 1 {
                        Some(lowercase(f.skip(5).filter(|x: Seq<char>| x.len() > 0)[1]))
                    } else {
                        None
                    })
                    &&& a.origin.file == f[1]
                    &&& parse_u32(f[2]) == Some(a.origin.line)
                })
            },
    decreases lines.len(),
{
    if lines.len() > 0 {
        let d = lines.drop_last();
        lemma_parse_lines_fields(d);
        if let Ok(ds) = parse_lines(lines) {
            let ne = nonempty(lines);
            let nd = nonempty(d);
            assert forall|i: int| 0 <= i < nd.len() implies ne[i] == nd[i] by {}
            if let Ok(ds0) = parse_lines(d) {
                assert forall|i: int|
                    0 <= i < ds.len() implies record_decl(split(ne[i], '\0'), (i + 1) as u64) == Ok::<
                        DeclView,
                        ParseErrorView,
                    >(#[trigger] ds[i]) by {
                    if i < ds0.len() {
                        assert(ds[i] == ds0[i]);
                        assert(ne[i] == nd[i]);
                    }
                }
                assert forall|i: int| 0 <= i < ds.len() implies {
                    let f = split(ne[i], '\0');
                    &&& (#[trigger] ds[i] matches DeclView::Rule(r) ==> {
                        &&& f.len() >= 7
                        &&& f[0] == "rule"@
                        &&& r.table == f[3]
                        &&& r.chain == lowercase(f[4])
                        &&& r.src == f[5]
                        &&& r.dst == f[6]
                        &&& r.tail == f.skip(7)
                        &&& r.origin.file == f[1]
                        &&& parse_u32(f[2]) == Some(r.origin.line)
                    })
                    &&& (ds[i] matches DeclView::Alias(a) ==> {
                        &&& f.len() >= 5
                        &&& f[0] == "alias"@
                        &&& a.name == f[3]
                        &&& a.host == f[4]
                        &&& a.port == (if f.skip(5).filter(|x: Seq<char>| x.len() > 0).len() > 0 {
                            Some(f.skip(5).filter(|x: Seq<char>| x.len() > 0)[0])
                        } else {
                            None
                        })
                        &&& a.proto == (if f.skip(5).filter(|x: Seq<char>| x.len() > 0).len() > 1 {
                            Some(lowercase(f.skip(5).filter(|x: Seq<char>| x.len() > 0)[1]))
                        } else {
                            None
                        })
                        &&& a.origin.file == f[1]
                        &&& parse_u32(f[2]) == Some(a.origin.line)
                    })
                } by {
                    assert(record_decl(split(ne[i], '\0'), (i + 1) as u64) == Ok::<DeclView, ParseErrorView>(ds[i]));
                    lemma_record_fields(split(ne[i], '\0'), (i + 1) as u64);
                }
            }
        }
    }
}

} // verus!
