//! Turns the rendered command-line reference into the page that is published.
//!
//! Text is modelled as a sequence of characters and a page as a sequence of
//! lines. The executable functions work on `Vec<char>`.
use vstd::prelude::*;

verus! {

/// `pattern` stands in `text` at position `at`.
pub open spec fn occurs_at(text: Seq<char>, pattern: Seq<char>, at: int) -> bool {
    &&& 0 <= at
    &&& at + pattern.len() <= text.len()
    &&& text.subrange(at, at + pattern.len()) == pattern
}

/// The first position from `from` on where `pattern` stands in `text`, or -1
/// where it stands nowhere from there on.
pub open spec fn first_occurrence(text: Seq<char>, pattern: Seq<char>, from: int) -> int
    decreases text.len() - from,
{
    if from < 0 || from + pattern.len() > text.len() {
        -1
    } else if occurs_at(text, pattern, from) {
        from
    } else if from < text.len() {
        first_occurrence(text, pattern, from + 1)
    } else {
        -1
    }
}

/// `text` without the copies of `pattern` that it starts with.
pub open spec fn strip_leading(text: Seq<char>, pattern: Seq<char>) -> Seq<char>
    decreases text.len(),
{
    if pattern.len() > 0 && occurs_at(text, pattern, 0) {
        strip_leading(text.skip(pattern.len() as int), pattern)
    } else {
        text
    }
}

/// `text` with its first occurrence of `pattern`, if it has one, replaced by `with`.
pub open spec fn replace_first(text: Seq<char>, pattern: Seq<char>, with: Seq<char>) -> Seq<char> {
    let at = first_occurrence(text, pattern, 0);
    if at < 0 {
        text
    } else {
        text.take(at) + with + text.skip(at + pattern.len())
    }
}

/// The pieces of `text` from `from` on that lie between the occurrences of
/// `pattern`, found from left to right without overlap.
pub open spec fn split_from(text: Seq<char>, pattern: Seq<char>, from: int) -> Seq<Seq<char>>
    decreases text.len() - from,
{
    let at = first_occurrence(text, pattern, from);
    if pattern.len() == 0 || from < 0 || at < from || at + pattern.len() > text.len() {
        seq![text.skip(from)]
    } else {
        seq![text.subrange(from, at)] + split_from(text, pattern, at + pattern.len())
    }
}

/// The pieces of `text` between the occurrences of `pattern`.
pub open spec fn split(text: Seq<char>, pattern: Seq<char>) -> Seq<Seq<char>> {
    split_from(text, pattern, 0)
}

/// The characters with the Unicode property `White_Space`.
pub open spec fn is_white_space(c: char) -> bool {
    let u = c as u32;
    ||| 0x0009 <= u <= 0x000D
    ||| u == 0x0020
    ||| u == 0x0085
    ||| u == 0x00A0
    ||| u == 0x1680
    ||| 0x2000 <= u <= 0x200A
    ||| u == 0x2028
    ||| u == 0x2029
    ||| u == 0x202F
    ||| u == 0x205F
    ||| u == 0x3000
}

pub open spec fn trim_start(text: Seq<char>) -> Seq<char>
    decreases text.len(),
{
    if text.len() > 0 && is_white_space(text[0]) {
        trim_start(text.skip(1))
    } else {
        text
    }
}

pub open spec fn trim_end(text: Seq<char>) -> Seq<char>
    decreases text.len(),
{
    if text.len() > 0 && is_white_space(text.last()) {
        trim_end(text.drop_last())
    } else {
        text
    }
}

/// `text` without the white space at its two ends.
pub open spec fn trim(text: Seq<char>) -> Seq<char> {
    trim_end(trim_start(text))
}

/// The lines with `separator` between each two of them.
pub open spec fn join(lines: Seq<Seq<char>>, separator: Seq<char>) -> Seq<char>
    decreases lines.len(),
{
    if lines.len() == 0 {
        Seq::empty()
    } else if lines.len() == 1 {
        lines[0]
    } else {
        join(lines.drop_last(), separator) + separator + lines.last()
    }
}

/// A line that is a title between two `**` marks becomes a second-level heading.
pub open spec fn heading(line: Seq<char>) -> Seq<char> {
    let mark = "**"@;
    if line.len() >= 2 * mark.len() && occurs_at(line, mark, 0) && occurs_at(
        line,
        mark,
        line.len() - mark.len(),
    ) {
        "## "@ + line.subrange(mark.len() as int, line.len() - mark.len())
    } else {
        line
    }
}

/// The lines that one rendered line gives. A line that holds `###` is cut at
/// each `###`; the pieces are trimmed and followed by a line that is a line
/// break. Every line that results is then given its heading form.
pub open spec fn rewrite_line(line: Seq<char>) -> Seq<Seq<char>> {
    if first_occurrence(line, "###"@, 0) >= 0 {
        split(line, "###"@).map_values(|part: Seq<char>| heading(trim(part))).push(heading("\n"@))
    } else {
        seq![heading(line)]
    }
}

/// The lines that the rendered lines give, in order.
pub open spec fn rewrite_lines(lines: Seq<Seq<char>>) -> Seq<Seq<char>>
    decreases lines.len(),
{
    if lines.len() == 0 {
        Seq::empty()
    } else {
        rewrite_lines(lines.drop_last()) + rewrite_line(lines.last())
    }
}

/// The published page for the rendered reference `markdown`: the leading
/// `# oxlint` headers are dropped, the first `**Usage**:` becomes a heading,
/// every line is rewritten, and the result stands between the two comments
/// that switch the text linter off and on.
pub open spec fn cli_page(markdown: Seq<char>) -> Seq<char> {
    let body = replace_first(
        strip_leading(markdown, "# oxlint\n"@),
        "**Usage**:"@,
        "## Usage\n"@,
    );
    "\n<!-- textlint-disable -->\n\n"@ + join(rewrite_lines(split(body, "\n"@)), "\n"@)
        + "\n\n<!-- textlint-enable -->\n"@
}

/// The lines held by `rows`, as sequences.
pub open spec fn rows(lines: Seq<Vec<char>>) -> Seq<Seq<char>> {
    lines.map_values(|line: Vec<char>| line@)
}

/// Where `first_occurrence` finds something, it is an occurrence at or after `from`.
pub proof fn lemma_first_occurrence(text: Seq<char>, pattern: Seq<char>, from: int)
    requires
        0 <= from,
    ensures
        first_occurrence(text, pattern, from) == -1 || (from <= first_occurrence(
            text,
            pattern,
            from,
        ) && occurs_at(text, pattern, first_occurrence(text, pattern, from))),
        forall|at: int|
            from <= at && #[trigger] occurs_at(text, pattern, at) ==> 0 <= first_occurrence(
                text,
                pattern,
                from,
            ) <= at,
    decreases text.len() - from,
{
    if from + pattern.len() <= text.len() && !occurs_at(text, pattern, from) {
        if from < text.len() {
            lemma_first_occurrence(text, pattern, from + 1);
        } else {
            assert(text.subrange(from, from + pattern.len()) =~= pattern);
        }
    }
}

/// Appends one character to a string, by `String::push`.
#[verifier::external_body]
fn push_char(text: &mut String, c: char)
    ensures
        final(text)@ == old(text)@.push(c),
{
    text.push(c);
}

/// The characters of `text`.
fn to_chars(text: &str) -> (chars: Vec<char>)
    ensures
        chars@ == text@,
{
    let mut chars: Vec<char> = Vec::new();
    for c in it: text.chars()
        invariant
            it.seq() == text@,
            chars@ == it.seq().take(it.index() as int),
    {
        chars.push(c);
    }
    chars
}

/// The string made of `chars`.
fn to_text(chars: &Vec<char>) -> (text: String)
    ensures
        text@ == chars@,
{
    let mut text = String::new();
    let mut i: usize = 0;
    while i < chars.len()
        invariant
            i <= chars.len(),
            text@ == chars@.take(i as int),
        decreases chars.len() - i,
    {
        push_char(&mut text, chars[i]);
        assert(chars@.take(i + 1) =~= chars@.take(i as int).push(chars@[i as int]));
        i += 1;
    }
    assert(chars@.take(i as int) =~= chars@);
    text
}

/// Puts `source` behind `target`.
fn append(target: &mut Vec<char>, source: &Vec<char>)
    ensures
        final(target)@ == old(target)@ + source@,
{
    let mut i: usize = 0;
    while i < source.len()
        invariant
            i <= source.len(),
            target@ == old(target)@ + source@.take(i as int),
        decreases source.len() - i,
    {
        target.push(source[i]);
        assert(source@.take(i + 1) =~= source@.take(i as int).push(source@[i as int]));
        i += 1;
    }
    assert(source@.take(i as int) =~= source@);
}

/// A copy of `text[from..to]`.
fn slice(text: &Vec<char>, from: usize, to: usize) -> (part: Vec<char>)
    requires
        from <= to <= text.len(),
    ensures
        part@ == text@.subrange(from as int, to as int),
{
    let mut part: Vec<char> = Vec::new();
    let mut i: usize = from;
    while i < to
        invariant
            from <= i <= to <= text.len(),
            part@ == text@.subrange(from as int, i as int),
        decreases to - i,
    {
        part.push(text[i]);
        assert(text@.subrange(from as int, i + 1) =~= text@.subrange(from as int, i as int).push(
            text@[i as int],
        ));
        i += 1;
    }
    part
}

/// Whether `pattern` stands in `text` at position `at`.
fn is_at(text: &Vec<char>, pattern: &Vec<char>, at: usize) -> (b: bool)
    ensures
        b == occurs_at(text@, pattern@, at as int),
{
    if pattern.len() > text.len() || at > text.len() - pattern.len() {
        return false;
    }
    let mut i: usize = 0;
    while i < pattern.len()
        invariant
            i <= pattern.len(),
            at + pattern.len() <= text.len(),
            forall|j: int| 0 <= j < i ==> text@[at + j] == pattern@[j],
        decreases pattern.len() - i,
    {
        if text[at + i] != pattern[i] {
            assert(text@.subrange(at as int, at + pattern.len())[i as int] != pattern@[i as int]);
            return false;
        }
        i += 1;
    }
    assert(text@.subrange(at as int, at + pattern.len()) =~= pattern@);
    true
}

/// The first position from `from` on where `pattern` stands in `text`.
fn find(text: &Vec<char>, pattern: &Vec<char>, from: usize) -> (r: Option<usize>)
    ensures
        match r {
            Some(at) => at == first_occurrence(text@, pattern@, from as int),
            None => first_occurrence(text@, pattern@, from as int) == -1,
        },
{
    let mut i: usize = from;
    while i < text.len() && pattern.len() <= text.len() - i
        invariant
            from <= i,
            first_occurrence(text@, pattern@, from as int) == first_occurrence(
                text@,
                pattern@,
                i as int,
            ),
        decreases text.len() - i,
    {
        if is_at(text, pattern, i) {
            return Some(i);
        }
        i += 1;
    }
    if is_at(text, pattern, i) {
        Some(i)
    } else {
        None
    }
}

/// Whether `c` is white space.
fn white(c: char) -> (b: bool)
    ensures
        b == is_white_space(c),
{
    let u: u32 = c as u32;
    (0x0009 <= u && u <= 0x000D) || u == 0x0020 || u == 0x0085 || u == 0x00A0 || u == 0x1680 || (
    0x2000 <= u && u <= 0x200A) || u == 0x2028 || u == 0x2029 || u == 0x202F || u == 0x205F || u
        == 0x3000
}

/// `text` without the copies of `pattern` that it starts with.
fn strip(text: &Vec<char>, pattern: &Vec<char>) -> (rest: Vec<char>)
    ensures
        rest@ == strip_leading(text@, pattern@),
{
    let mut from: usize = 0;
    assert(text@.skip(0) =~= text@);
    while pattern.len() > 0 && is_at(text, pattern, from)
        invariant
            from <= text.len(),
            strip_leading(text@, pattern@) == strip_leading(text@.skip(from as int), pattern@),
        decreases text.len() - from,
    {
        proof {
            let tail = text@.skip(from as int);
            assert(tail.subrange(0, pattern@.len() as int) =~= text@.subrange(
                from as int,
                from + pattern@.len(),
            ));
            assert(tail.skip(pattern@.len() as int) =~= text@.skip(from + pattern@.len()));
        }
        from += pattern.len();
    }
    proof {
        let tail = text@.skip(from as int);
        if pattern@.len() > 0 && occurs_at(tail, pattern@, 0) {
            assert(tail.subrange(0, pattern@.len() as int) =~= text@.subrange(
                from as int,
                from + pattern@.len(),
            ));
        }
        assert(tail =~= text@.subrange(from as int, text@.len() as int));
    }
    slice(text, from, text.len())
}

/// `text` with its first occurrence of `pattern` replaced by `with`.
fn replace(text: &Vec<char>, pattern: &Vec<char>, with: &Vec<char>) -> (r: Vec<char>)
    ensures
        r@ == replace_first(text@, pattern@, with@),
{
    proof {
        lemma_first_occurrence(text@, pattern@, 0);
    }
    match find(text, pattern, 0) {
        Some(at) => {
            let mut r = slice(text, 0, at);
            append(&mut r, with);
            let tail = slice(text, at + pattern.len(), text.len());
            append(&mut r, &tail);
            assert(text@.subrange(0, at as int) =~= text@.take(at as int));
            assert(text@.subrange(at + pattern.len(), text.len() as int) =~= text@.skip(
                at + pattern.len(),
            ));
            r
        },
        None => {
            let r = slice(text, 0, text.len());
            assert(text@.subrange(0, text.len() as int) =~= text@);
            r
        },
    }
}

/// The pieces of `text` between the occurrences of `pattern`.
fn cut(text: &Vec<char>, pattern: &Vec<char>) -> (parts: Vec<Vec<char>>)
    requires
        pattern.len() > 0,
    ensures
        rows(parts@) == split(text@, pattern@),
{
    let mut parts: Vec<Vec<char>> = Vec::new();
    let mut from: usize = 0;
    assert(rows(parts@) + split_from(text@, pattern@, 0) =~= split(text@, pattern@));
    loop
        invariant
            pattern.len() > 0,
            from <= text.len(),
            split(text@, pattern@) == rows(parts@) + split_from(text@, pattern@, from as int),
        decreases text.len() - from,
    {
        let ghost before = rows(parts@);
        proof {
            lemma_first_occurrence(text@, pattern@, from as int);
        }
        match find(text, pattern, from) {
            Some(at) => {
                let part = slice(text, from, at);
                parts.push(part);
                assert(rows(parts@) =~= before.push(text@.subrange(from as int, at as int)));
                assert(before + (seq![text@.subrange(from as int, at as int)] + split_from(
                    text@,
                    pattern@,
                    at + pattern.len(),
                )) =~= before.push(text@.subrange(from as int, at as int)) + split_from(
                    text@,
                    pattern@,
                    at + pattern.len(),
                ));
                from = at + pattern.len();
            },
            None => {
                let part = slice(text, from, text.len());
                parts.push(part);
                assert(text@.subrange(from as int, text.len() as int) =~= text@.skip(from as int));
                assert(rows(parts@) =~= before + seq![text@.skip(from as int)]);
                return parts;
            },
        }
    }
}

/// `text` without the white space at its two ends.
fn trimmed(text: &Vec<char>) -> (r: Vec<char>)
    ensures
        r@ == trim(text@),
{
    let mut start: usize = 0;
    assert(text@.skip(0) =~= text@);
    while start < text.len() && white(text[start])
        invariant
            start <= text.len(),
            trim_start(text@) == trim_start(text@.skip(start as int)),
        decreases text.len() - start,
    {
        assert(text@.skip(start as int).skip(1) =~= text@.skip(start + 1));
        start += 1;
    }
    assert(trim_start(text@) == text@.skip(start as int));
    let mut end: usize = text.len();
    assert(text@.skip(start as int) =~= text@.subrange(start as int, end as int));
    while end > start && white(text[end - 1])
        invariant
            start <= end <= text.len(),
            trim(text@) == trim_end(text@.subrange(start as int, end as int)),
        decreases end - start,
    {
        assert(text@.subrange(start as int, end as int).drop_last() =~= text@.subrange(
            start as int,
            end - 1,
        ));
        end -= 1;
    }
    slice(text, start, end)
}

/// The heading form of `line`.
fn titled(line: &Vec<char>) -> (r: Vec<char>)
    ensures
        r@ == heading(line@),
{
    let mark = to_chars("**");
    if line.len() / 2 >= mark.len() && is_at(line, &mark, 0) && is_at(
        line,
        &mark,
        line.len() - mark.len(),
    ) {
        let mut r = to_chars("## ");
        let inner = slice(line, mark.len(), line.len() - mark.len());
        append(&mut r, &inner);
        r
    } else {
        let r = slice(line, 0, line.len());
        assert(line@.subrange(0, line.len() as int) =~= line@);
        r
    }
}

/// The lines that one rendered line gives.
fn rewritten_line(line: &Vec<char>) -> (lines: Vec<Vec<char>>)
    ensures
        rows(lines@) == rewrite_line(line@),
{
    let marker = to_chars("###");
    proof {
        reveal_strlit("###");
    }
    let mut lines: Vec<Vec<char>> = Vec::new();
    match find(line, &marker, 0) {
        Some(_) => {
            let parts = cut(line, &marker);
            let ghost wanted = split(line@, "###"@).map_values(
                |part: Seq<char>| heading(trim(part)),
            );
            let mut i: usize = 0;
            while i < parts.len()
                invariant
                    i <= parts.len(),
                    rows(parts@) == split(line@, "###"@),
                    wanted == split(line@, "###"@).map_values(
                        |part: Seq<char>| heading(trim(part)),
                    ),
                    rows(lines@) == wanted.take(i as int),
                decreases parts.len() - i,
            {
                let ghost before = rows(lines@);
                let piece = trimmed(&parts[i]);
                let entry = titled(&piece);
                lines.push(entry);
                assert(rows(parts@)[i as int] == parts@[i as int]@);
                assert(rows(lines@) =~= before.push(wanted[i as int]));
                assert(wanted.take(i + 1) =~= wanted.take(i as int).push(wanted[i as int]));
                i += 1;
            }
            let ghost before = rows(lines@);
            assert(wanted.take(i as int) =~= wanted);
            let newline = to_chars("\n");
            let entry = titled(&newline);
            lines.push(entry);
            assert(rows(lines@) =~= before.push(heading("\n"@)));
        },
        None => {
            let entry = titled(line);
            lines.push(entry);
            assert(rows(lines@) =~= seq![heading(line@)]);
        },
    }
    lines
}

/// The lines that the rendered lines give, in order.
fn rewritten(lines: &Vec<Vec<char>>) -> (out: Vec<Vec<char>>)
    ensures
        rows(out@) == rewrite_lines(rows(lines@)),
{
    let mut out: Vec<Vec<char>> = Vec::new();
    let mut i: usize = 0;
    assert(rows(out@) =~= rewrite_lines(rows(lines@).take(0)));
    while i < lines.len()
        invariant
            i <= lines.len(),
            rows(out@) == rewrite_lines(rows(lines@).take(i as int)),
        decreases lines.len() - i,
    {
        let ghost done = rows(out@);
        let mut more = rewritten_line(&lines[i]);
        let ghost added = rows(more@);
        let mut j: usize = 0;
        while j < more.len()
            invariant
                j <= more.len(),
                added == rows(more@),
                rows(out@) == done + added.take(j as int),
            decreases more.len() - j,
        {
            let ghost so_far = rows(out@);
            let entry = slice(&more[j], 0, more[j].len());
            assert(entry@ =~= more@[j as int]@);
            out.push(entry);
            assert(rows(out@) =~= so_far.push(added[j as int]));
            assert(added.take(j + 1) =~= added.take(j as int).push(added[j as int]));
            j += 1;
        }
        proof {
            assert(added.take(j as int) =~= added);
            let prefix = rows(lines@).take(i + 1);
            assert(prefix.drop_last() =~= rows(lines@).take(i as int));
            assert(prefix.last() == lines@[i as int]@);
        }
        i += 1;
    }
    assert(rows(lines@).take(i as int) =~= rows(lines@));
    out
}

/// The lines with `separator` between each two of them.
fn joined(lines: &Vec<Vec<char>>, separator: &Vec<char>) -> (text: Vec<char>)
    ensures
        text@ == join(rows(lines@), separator@),
{
    let mut text: Vec<char> = Vec::new();
    let mut i: usize = 0;
    assert(text@ =~= join(rows(lines@).take(0), separator@));
    while i < lines.len()
        invariant
            i <= lines.len(),
            text@ == join(rows(lines@).take(i as int), separator@),
        decreases lines.len() - i,
    {
        if i > 0 {
            append(&mut text, separator);
        }
        append(&mut text, &lines[i]);
        proof {
            let prefix = rows(lines@).take(i + 1);
            assert(prefix.drop_last() =~= rows(lines@).take(i as int));
            assert(prefix.last() == lines@[i as int]@);
            if i == 0 {
                assert(text@ =~= lines@[0]@);
            }
        }
        i += 1;
    }
    assert(rows(lines@).take(i as int) =~= rows(lines@));
    text
}

/// The published page for the rendered command-line reference `markdown`.
pub fn generate_cli(markdown: &str) -> (page: String)
    ensures
        page@ == cli_page(markdown@),
{
    let text = to_chars(markdown);
    let stripped = strip(&text, &to_chars("# oxlint\n"));
    let body = replace(&stripped, &to_chars("**Usage**:"), &to_chars("## Usage\n"));
    let newline = to_chars("\n");
    proof {
        reveal_strlit("\n");
    }
    let lines = rewritten(&cut(&body, &newline));
    let mut page = to_chars("\n<!-- textlint-disable -->\n\n");
    append(&mut page, &joined(&lines, &newline));
    append(&mut page, &to_chars("\n\n<!-- textlint-enable -->\n"));
    to_text(&page)
}

} // verus!
