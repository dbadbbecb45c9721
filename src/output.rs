//! Per-task output: every line a child writes gets the task's prefix.
use vstd::prelude::*;

use crate::workspace::TaskInfo;
use colored::Colorize;

verus! {

#[verifier::external_type_specification]
pub struct ExColor(colored::Color);

/// The byte that ends a line.
pub const NEWLINE: u8 = 10;

/// What writing `buf` emits, and whether the next byte starts a line, when
/// `pending` says whether the first byte does.
pub open spec fn annotate(pending: bool, ann: Seq<u8>, buf: Seq<u8>) -> (Seq<u8>, bool)
    decreases buf.len(),
{
    if buf.len() == 0 {
        (Seq::empty(), pending)
    } else {
        let (out, p) = annotate(pending, ann, buf.drop_last());
        let b = buf.last();
        (out + (if p {
            ann
        } else {
            Seq::empty()
        }) + seq![b], b == NEWLINE)
    }
}

/// Writing two chunks one after the other emits what writing them as one does.
pub proof fn lemma_annotate_split(pending: bool, ann: Seq<u8>, a: Seq<u8>, b: Seq<u8>)
    ensures
        annotate(pending, ann, a + b) == ({
            let (first, mid) = annotate(pending, ann, a);
            let (second, end) = annotate(mid, ann, b);
            (first + second, end)
        }),
    decreases b.len(),
{
    if b.len() == 0 {
        assert(a + b =~= a);
    } else {
        assert((a + b).drop_last() =~= a + b.drop_last());
        lemma_annotate_split(pending, ann, a, b.drop_last());
        let (first, mid) = annotate(pending, ann, a);
        let (second, end) = annotate(mid, ann, b.drop_last());
        let pre = if end {
            ann
        } else {
            Seq::<u8>::empty()
        };
        assert(first + second + pre + seq![b.last()] =~= first + (second + pre + seq![b.last()]));
    }
}

/// A chunk that stops mid-line leaves the next write without a prefix; one
/// that ends a line leaves the prefix to the next write.
pub proof fn lemma_prefix_waits(pending: bool, ann: Seq<u8>, buf: Seq<u8>)
    requires
        buf.len() > 0,
    ensures
        annotate(pending, ann, buf).1 == (buf.last() == NEWLINE),
        annotate(pending, ann, buf).0.last() == buf.last(),
{
}

/// A writer state that puts `annotation` before every line.
pub struct AnnotatedWrite {
    annotation: Vec<u8>,
    next_needs_annotated: bool,
}

impl AnnotatedWrite {
    pub closed spec fn ann(&self) -> Seq<u8> {
        self.annotation@
    }

    pub closed spec fn pending(&self) -> bool {
        self.next_needs_annotated
    }

    /// A writer whose first byte starts a line.
    pub fn new(annotation: Vec<u8>) -> (r: AnnotatedWrite)
        ensures
            r.ann() == annotation@,
            r.pending(),
    {
        AnnotatedWrite { annotation, next_needs_annotated: true }
    }

    /// The bytes to emit for `buf`: each line that `buf` starts is preceded
    /// by the annotation.
    pub fn write(&mut self, buf: &[u8]) -> (r: Vec<u8>)
        ensures
            final(self).ann() == old(self).ann(),
            (r@, final(self).pending()) == annotate(old(self).pending(), old(self).ann(), buf@),
    {
        let mut out: Vec<u8> = Vec::new();
        let mut i: usize = 0;
        while i < buf.len()
            invariant
                i <= buf@.len(),
                self.ann() == old(self).ann(),
                (out@, self.pending()) == annotate(
                    old(self).pending(),
                    old(self).ann(),
                    buf@.take(i as int),
                ),
            decreases buf@.len() - i,
        {
            let ghost before = out@;
            assert(buf@.take(i as int + 1).drop_last() == buf@.take(i as int));
            if self.next_needs_annotated {
                let mut k: usize = 0;
                while k < self.annotation.len()
                    invariant
                        k <= self.annotation@.len(),
                        out@ == before + self.annotation@.take(k as int),
                    decreases self.annotation@.len() - k,
                {
                    out.push(self.annotation[k]);
                    assert(out@ =~= before + self.annotation@.take(k as int + 1));
                    k = k + 1;
                }
                assert(self.annotation@.take(self.annotation@.len() as int) =~= self.annotation@);
                self.next_needs_annotated = false;
            }
            let b = buf[i];
            out.push(b);
            self.next_needs_annotated = b == NEWLINE;
            proof {
                let pre = if annotate(old(self).pending(), old(self).ann(), buf@.take(i as int)).1 {
                    old(self).ann()
                } else {
                    Seq::<u8>::empty()
                };
                assert(out@ =~= before + pre + seq![b]);
            }
            i = i + 1;
        }
        assert(buf@.take(buf@.len() as int) =~= buf@);
        out
    }
}

/// `s` right-aligned in `width` characters.
pub open spec fn pad_left(s: Seq<char>, width: nat) -> Seq<char> {
    if s.len() < width {
        Seq::new((width - s.len()) as nat, |i: int| ' ') + s
    } else {
        s
    }
}

/// `s` left-aligned in `width` characters.
pub open spec fn pad_right(s: Seq<char>, width: nat) -> Seq<char> {
    if s.len() < width {
        s + Seq::new((width - s.len()) as nat, |i: int| ' ')
    } else {
        s
    }
}

fn spaces(n: usize) -> (r: String)
    ensures
        r@ == Seq::new(n as nat, |i: int| ' '),
{
    let mut s = String::new();
    let mut i: usize = 0;
    while i < n
        invariant
            i <= n,
            s@ == Seq::new(i as nat, |k: int| ' '),
        decreases n - i,
    {
        s.append(" ");
        proof {
            reveal_strlit(" ");
            assert(s@ =~= Seq::new((i + 1) as nat, |k: int| ' '));
        }
        i = i + 1;
    }
    s
}

/// The plain prefix `"<project> | <task> "`, the project right-aligned and
/// the task left-aligned to the given widths.
pub fn annotation_text(project: &str, task: &str, project_width: usize, task_width: usize) -> (r:
    String)
    ensures
        r@ == pad_left(project@, project_width as nat) + " | "@ + pad_right(
            task@,
            task_width as nat,
        ) + " "@,
{
    let pl = project.unicode_len();
    let tl = task.unicode_len();
    let mut s = if pl < project_width {
        spaces(project_width - pl)
    } else {
        String::new()
    };
    s.append(project);
    s.append(" | ");
    s.append(task);
    if tl < task_width {
        let pad = spaces(task_width - tl);
        s.append(pad.as_str());
    }
    s.append(" ");
    proof {
        assert(s@ =~= pad_left(project@, project_width as nat) + " | "@ + pad_right(
            task@,
            task_width as nat,
        ) + " "@);
    }
    s
}

/// The colour of the task at position `i`: the palette, cycled.
pub open spec fn palette_color(i: int) -> colored::Color {
    let k = i % 12;
    if k == 0 {
        colored::Color::Blue
    } else if k == 1 {
        colored::Color::Red
    } else if k == 2 {
        colored::Color::Green
    } else if k == 3 {
        colored::Color::Yellow
    } else if k == 4 {
        colored::Color::Magenta
    } else if k == 5 {
        colored::Color::Cyan
    } else if k == 6 {
        colored::Color::BrightBlue
    } else if k == 7 {
        colored::Color::BrightRed
    } else if k == 8 {
        colored::Color::BrightGreen
    } else if k == 9 {
        colored::Color::BrightYellow
    } else if k == 10 {
        colored::Color::BrightMagenta
    } else {
        colored::Color::BrightCyan
    }
}

/// The palette that tasks cycle through.
pub fn palette(i: usize) -> (r: colored::Color)
    ensures
        r == palette_color(i as int),
        i % 12 == 0 ==> r == colored::Color::Blue,
        i % 12 == 1 ==> r == colored::Color::Red,
        i % 12 == 2 ==> r == colored::Color::Green,
        i % 12 == 3 ==> r == colored::Color::Yellow,
        i % 12 == 4 ==> r == colored::Color::Magenta,
        i % 12 == 5 ==> r == colored::Color::Cyan,
        i % 12 == 6 ==> r == colored::Color::BrightBlue,
        i % 12 == 7 ==> r == colored::Color::BrightRed,
        i % 12 == 8 ==> r == colored::Color::BrightGreen,
        i % 12 == 9 ==> r == colored::Color::BrightYellow,
        i % 12 == 10 ==> r == colored::Color::BrightMagenta,
        i % 12 == 11 ==> r == colored::Color::BrightCyan,
{
    let k = i % 12;
    if k == 0 {
        colored::Color::Blue
    } else if k == 1 {
        colored::Color::Red
    } else if k == 2 {
        colored::Color::Green
    } else if k == 3 {
        colored::Color::Yellow
    } else if k == 4 {
        colored::Color::Magenta
    } else if k == 5 {
        colored::Color::Cyan
    } else if k == 6 {
        colored::Color::BrightBlue
    } else if k == 7 {
        colored::Color::BrightRed
    } else if k == 8 {
        colored::Color::BrightGreen
    } else if k == 9 {
        colored::Color::BrightYellow
    } else if k == 10 {
        colored::Color::BrightMagenta
    } else {
        colored::Color::BrightCyan
    }
}

/// The reset sequence that ends a coloured span.
pub open spec fn reset_code() -> Seq<char> {
    seq!['\u{1b}', '[', '0', 'm']
}

/// The text `"<project> | <task> "`, padded.
pub open spec fn annotation_spec(project: Seq<char>, task: Seq<char>, pw: nat, tw: nat) -> Seq<char> {
    pad_left(project, pw) + " | "@ + pad_right(task, tw) + " "@
}

/// `painted` is `text` as colouring may leave it: unchanged, or wrapped in a
/// style code and a reset.
pub open spec fn painted_from(text: Seq<char>, painted: Seq<char>) -> bool {
    !text.contains('\u{1b}') ==> painted == text || (painted.len() >= text.len() + 4
        && painted.subrange(painted.len() - text.len() - 4, painted.len() - 4) == text
        && painted.skip(painted.len() - 4) == reset_code())
}

/// Relies on colored's `Colorize::color` and its `Display`: the text comes
/// back unchanged when colouring is off, else wrapped in a style code and a
/// reset, for text without escape characters.
#[verifier::external_body]
fn paint(s: &str, color: colored::Color) -> (r: String)
    ensures
        painted_from(s@, r@),
{
    s.color(color).to_string()
}

/// The byte form of a string.
fn bytes_of(s: &String) -> (r: Vec<u8>)
    ensures
        r@ == vstd::utf8::encode_utf8(s@),
{
    s.as_str().as_bytes_vec()
}

/// The writers for one task's standard output and standard error.
pub struct CommandOutput {
    stdout: AnnotatedWrite,
    stderr: AnnotatedWrite,
    color: Ghost<colored::Color>,
}

impl CommandOutput {
    pub closed spec fn prefix(&self) -> Seq<u8> {
        self.stdout.ann()
    }

    /// The colour its prefix was painted with.
    pub closed spec fn color(&self) -> colored::Color {
        self.color@
    }

    pub closed spec fn same_prefix(&self) -> bool {
        self.stdout.ann() == self.stderr.ann()
    }

    pub closed spec fn out_pending(&self) -> bool {
        self.stdout.pending()
    }

    pub closed spec fn err_pending(&self) -> bool {
        self.stderr.pending()
    }

    /// Writers for a task, its prefix padded to the widths and coloured.
    pub fn new(task: &TaskInfo, max_project_len: usize, max_task_len: usize, color: colored::Color) -> (r:
        CommandOutput)
        ensures
            r.same_prefix(),
            r.out_pending(),
            r.err_pending(),
            r.color() == color,
            prefix_of_task(r, *task, max_project_len as nat, max_task_len as nat),
    {
        let text = annotation_text(
            task.project_name.as_str(),
            task.name.as_str(),
            max_project_len,
            max_task_len,
        );
        let painted = paint(text.as_str(), color);
        let bytes = bytes_of(&painted);
        let copy = bytes_of(&painted);
        let r = CommandOutput {
            stdout: AnnotatedWrite::new(bytes),
            stderr: AnnotatedWrite::new(copy),
            color: Ghost(color),
        };
        assert(painted_from(
            annotation_spec(task.project_name@, task.name@, max_project_len as nat, max_task_len as nat),
            painted@,
        ));
        assert(prefix_of_task(r, *task, max_project_len as nat, max_task_len as nat));
        r
    }

    /// The bytes to send to standard output for `buf`.
    pub fn stdout(&mut self, buf: &[u8]) -> (r: Vec<u8>)
        requires
            old(self).same_prefix(),
        ensures
            final(self).same_prefix(),
            final(self).prefix() == old(self).prefix(),
            final(self).color() == old(self).color(),
            final(self).err_pending() == old(self).err_pending(),
            (r@, final(self).out_pending()) == annotate(old(self).out_pending(), old(self).prefix(), buf@),
    {
        self.stdout.write(buf)
    }

    /// The bytes to send to standard error for `buf`.
    pub fn stderr(&mut self, buf: &[u8]) -> (r: Vec<u8>)
        requires
            old(self).same_prefix(),
        ensures
            final(self).same_prefix(),
            final(self).prefix() == old(self).prefix(),
            final(self).color() == old(self).color(),
            final(self).out_pending() == old(self).out_pending(),
            (r@, final(self).err_pending()) == annotate(old(self).err_pending(), old(self).prefix(), buf@),
    {
        self.stderr.write(buf)
    }
}

/// The widest of the given lengths, zero for none.
pub fn max_len(v: &Vec<usize>) -> (r: usize)
    ensures
        forall|i: int| 0 <= i < v.len() ==> v@[i] <= r,
        v.len() == 0 ==> r == 0,
        v.len() > 0 ==> v@.contains(r),
{
    let mut m: usize = 0;
    let mut i: usize = 0;
    while i < v.len()
        invariant
            i <= v.len(),
            forall|k: int| 0 <= k < i ==> v@[k] <= m,
            i == 0 ==> m == 0,
            i > 0 ==> v@.take(i as int).contains(m),
        decreases v.len() - i,
    {
        if v[i] > m || i == 0 {
            m = v[i];
            assert(v@.take(i as int + 1)[i as int] == m);
        } else {
            let ghost w = choose|w: int| 0 <= w < i && v@.take(i as int)[w] == m;
            assert(v@.take(i as int + 1)[w] == m);
        }
        i = i + 1;
    }
    if v.len() > 0 {
        assert(v@.take(v.len() as int) =~= v@);
    }
    m
}

/// `pw` and `tw` are the longest project and task names of `tasks`, zero
/// for no task.
pub open spec fn widest(tasks: Seq<&TaskInfo>, pw: nat, tw: nat) -> bool {
    &&& forall|j: int| 0 <= j < tasks.len() ==> tasks[j].project_name@.len() <= pw && tasks[j].name@.len() <= tw
    &&& tasks.len() == 0 ==> pw == 0 && tw == 0
    &&& tasks.len() > 0 ==> (exists|j: int| 0 <= j < tasks.len() && tasks[j].project_name@.len() == pw)
        && (exists|j: int| 0 <= j < tasks.len() && tasks[j].name@.len() == tw)
}

/// The writer's prefix is the task's annotation at these widths, as
/// colouring leaves it.
pub open spec fn prefix_of_task(o: CommandOutput, t: TaskInfo, pw: nat, tw: nat) -> bool {
    exists|p: Seq<char>|
        painted_from(annotation_spec(t.project_name@, t.name@, pw, tw), p) && o.prefix()
            == vstd::utf8::encode_utf8(p)
}

proof fn lemma_widest_unique(tasks: Seq<&TaskInfo>, a: nat, b: nat, c: nat, d: nat)
    requires
        widest(tasks, a, b),
        widest(tasks, c, d),
    ensures
        a == c && b == d,
{
    if tasks.len() > 0 {
        let i = choose|j: int| 0 <= j < tasks.len() && tasks[j].project_name@.len() == a;
        let k = choose|j: int| 0 <= j < tasks.len() && tasks[j].project_name@.len() == c;
        let m = choose|j: int| 0 <= j < tasks.len() && tasks[j].name@.len() == b;
        let n = choose|j: int| 0 <= j < tasks.len() && tasks[j].name@.len() == d;
        assert(tasks[i].project_name@.len() <= c);
        assert(tasks[k].project_name@.len() <= a);
        assert(tasks[m].name@.len() <= d);
        assert(tasks[n].name@.len() <= b);
    }
}

/// One pair of writers per task, in the order given: prefixes padded to the
/// widest project and task names, colours cycling through the palette.
pub fn build_command_outputs(tasks: &Vec<&TaskInfo>) -> (r: Vec<CommandOutput>)
    ensures
        r.len() == tasks.len(),
        forall|i: int| 0 <= i < r.len() ==> (#[trigger] r@[i]).same_prefix() && r@[i].out_pending()
            && r@[i].err_pending(),
        forall|i: int, pw: nat, tw: nat|
            0 <= i < r.len() && widest(tasks@, pw, tw) ==> #[trigger] prefix_of_task(r@[i], *tasks@[i], pw, tw),
        forall|i: int| 0 <= i < r.len() ==> (#[trigger] r@[i]).color() == palette_color(i),
{
    let mut project_lens: Vec<usize> = Vec::new();
    let mut task_lens: Vec<usize> = Vec::new();
    let mut i: usize = 0;
    while i < tasks.len()
        invariant
            i <= tasks.len(),
            project_lens.len() == i,
            task_lens.len() == i,
            forall|k: int| 0 <= k < i ==> project_lens@[k] == tasks@[k].project_name@.len(),
            forall|k: int| 0 <= k < i ==> task_lens@[k] == tasks@[k].name@.len(),
        decreases tasks.len() - i,
    {
        project_lens.push(tasks[i].project_name.as_str().unicode_len());
        task_lens.push(tasks[i].name.as_str().unicode_len());
        i = i + 1;
    }
    let pw = max_len(&project_lens);
    let tw = max_len(&task_lens);
    proof {
        if tasks.len() > 0 {
            let a = choose|a: int| 0 <= a < project_lens@.len() && project_lens@[a] == pw;
            let b = choose|b: int| 0 <= b < task_lens@.len() && task_lens@[b] == tw;
            assert(tasks@[a].project_name@.len() == pw);
            assert(tasks@[b].name@.len() == tw);
        }
        assert forall|j: int| 0 <= j < tasks.len() implies tasks@[j].project_name@.len() <= pw
            && tasks@[j].name@.len() <= tw by {
            assert(project_lens@[j] <= pw);
            assert(task_lens@[j] <= tw);
        }
        assert(widest(tasks@, pw as nat, tw as nat));
    }
    let mut r: Vec<CommandOutput> = Vec::new();
    let mut j: usize = 0;
    while j < tasks.len()
        invariant
            j <= tasks.len(),
            r.len() == j,
            forall|k: int| 0 <= k < r.len() ==> (#[trigger] r@[k]).same_prefix() && r@[k].out_pending()
                && r@[k].err_pending(),
            forall|k: int| 0 <= k < r.len() ==> prefix_of_task(#[trigger] r@[k], *tasks@[k], pw as nat, tw as nat),
            forall|k: int| 0 <= k < r.len() ==> (#[trigger] r@[k]).color() == palette_color(k),
            widest(tasks@, pw as nat, tw as nat),
        decreases tasks.len() - j,
    {
        r.push(CommandOutput::new(tasks[j], pw, tw, palette(j)));
        j = j + 1;
    }
    proof {
        assert forall|i: int, a: nat, b: nat|
            0 <= i < r.len() && widest(tasks@, a, b) implies #[trigger] prefix_of_task(r@[i], *tasks@[i], a, b) by {
            lemma_widest_unique(tasks@, a, b, pw as nat, tw as nat);
        }
    }
    r
}

} // verus!
