//! The file of the offline request queue.
//!
//! The file holds one heartbeat per line and is only ever appended to. A file beside it counts
//! the lines that are delivered. Delivering a heartbeat costs one small write. A crash can make
//! the queue send heartbeats again, but never skip one.

use vstd::prelude::*;

use crate::text::{decimal_text, is_blank, parse_natural, split_lines, trim};
#[allow(unused_imports)]
use crate::text::{
    all_digits, blank, decimal, is_digit, law_decimal_prefix_is_no_larger, lemma_line_end_is,
    law_decimal_reads_back, lines, natural_value, texts, trimmed, without_return,
};

verus! {

/// One change of the files of a queue.
#[derive(Debug)]
pub enum FileAction {
    /// Write the temporary file and sync it.
    WriteTemp(String),
    /// Remove the file that counts the delivered lines, if it is there.
    RemoveOffset,
    /// Let the temporary file replace the queue file.
    ReplaceByTemp,
    /// Append to the queue file and sync it. If that fails, nothing of the text may be left.
    Append(String),
    /// Empty the queue file.
    Empty,
    /// Write the file that counts the delivered lines.
    WriteOffset(String),
}

/// What a [`FileAction`] stands for.
pub enum FileActionView {
    WriteTemp(Seq<char>),
    RemoveOffset,
    ReplaceByTemp,
    Append(Seq<char>),
    Empty,
    WriteOffset(Seq<char>),
}

impl View for FileAction {
    type V = FileActionView;

    open spec fn view(&self) -> FileActionView {
        match self {
            FileAction::WriteTemp(text) => FileActionView::WriteTemp(text@),
            FileAction::RemoveOffset => FileActionView::RemoveOffset,
            FileAction::ReplaceByTemp => FileActionView::ReplaceByTemp,
            FileAction::Append(text) => FileActionView::Append(text@),
            FileAction::Empty => FileActionView::Empty,
            FileAction::WriteOffset(text) => FileActionView::WriteOffset(text@),
        }
    }
}

/// What a list of actions stands for.
pub open spec fn action_views(actions: Seq<FileAction>) -> Seq<FileActionView> {
    actions.map_values(|a: FileAction| a@)
}

/// The files of a queue.
#[verifier::ext_equal]
pub struct QueueDisk {
    pub contents: Seq<char>,
    pub offset: Option<Seq<char>>,
    pub temp: Seq<char>,
}

/// How many lines of the queue file the other file says are delivered. A text that is not a
/// number counts none.
pub open spec fn offset_value(offset: Option<Seq<char>>) -> nat {
    match offset {
        Some(text) => match natural_value(trimmed(text), u64::MAX as nat) {
            Some(n) => n,
            None => 0,
        },
        None => 0,
    }
}

/// A line that waits for its delivery, with its number in the file.
pub open spec fn waiting_lines(all: Seq<Seq<char>>, delivered: nat) -> Seq<(nat, Seq<char>)>
    decreases all.len(),
{
    if all.len() == 0 {
        Seq::empty()
    } else {
        let earlier = waiting_lines(all.drop_last(), delivered);
        if all.len() <= delivered || blank(all.last()) {
            earlier
        } else {
            earlier.push((all.len(), all.last()))
        }
    }
}

/// A line of the queue file that waits for its delivery.
#[derive(Debug)]
pub struct WaitingLine {
    /// The number of the line, the first one being 1.
    pub number: usize,
    pub text: String,
}

pub open spec fn waiting_views(waiting: Seq<WaitingLine>) -> Seq<(nat, Seq<char>)> {
    waiting.map_values(|w: WaitingLine| (w.number as nat, w.text@))
}

/// How many lines of the queue file are delivered, by the contents of the file that counts them.
pub fn delivered_lines(offset: Option<&str>) -> (delivered: u64)
    ensures
        delivered == offset_value(
            match offset {
                Some(text) => Some(text@),
                None => None,
            },
        ),
{
    match offset {
        Some(text) => {
            let number = trim(text);
            match parse_natural(number.as_str(), u64::MAX) {
                Some(n) => n,
                None => 0,
            }
        },
        None => 0,
    }
}

/// The lines of the queue file that wait for their delivery: those after the delivered ones,
/// without the blank ones.
pub fn waiting(contents: &str, delivered: u64) -> (r: Vec<WaitingLine>)
    ensures
        waiting_views(r@) == waiting_lines(lines(contents@), delivered as nat),
{
    let all = split_lines(contents);
    let ghost wanted = lines(contents@);
    let mut r: Vec<WaitingLine> = Vec::new();
    let mut i: usize = 0;
    proof {
        assert(waiting_views(r@) =~= waiting_lines(wanted.take(0), delivered as nat));
    }
    while i < all.len()
        invariant
            wanted == texts(all@),
            i <= all.len(),
            waiting_views(r@) == waiting_lines(wanted.take(i as int), delivered as nat),
        decreases all.len() - i,
    {
        let ghost before = waiting_views(r@);
        proof {
            assert(wanted.take(i + 1).drop_last() =~= wanted.take(i as int));
            assert(wanted.take(i + 1).last() == all@[i as int]@);
        }
        if i as u64 >= delivered && !is_blank(all[i].as_str()) {
            r.push(WaitingLine { number: i + 1, text: all[i].clone() });
            proof {
                assert(waiting_views(r@) =~= before.push(((i + 1) as nat, all@[i as int]@)));
            }
        }
        i += 1;
    }
    proof {
        assert(wanted.take(wanted.len() as int) =~= wanted);
    }
    r
}

/// The text of a file that holds these lines.
pub open spec fn joined(all: Seq<Seq<char>>) -> Seq<char>
    decreases all.len(),
{
    if all.len() == 0 {
        Seq::empty()
    } else {
        all[0].push('\n') + joined(all.drop_first())
    }
}

proof fn lemma_joined_push(all: Seq<Seq<char>>, line: Seq<char>)
    ensures
        joined(all.push(line)) == joined(all) + line.push('\n'),
    decreases all.len(),
{
    if all.len() == 0 {
        reveal_with_fuel(joined, 2);
        assert(all.push(line).drop_first() =~= Seq::<Seq<char>>::empty());
        assert(joined(all.push(line)) =~= joined(all) + line.push('\n'));
    } else {
        assert(all.push(line).drop_first() =~= all.drop_first().push(line));
        lemma_joined_push(all.drop_first(), line);
        assert(joined(all.push(line)) =~= joined(all) + line.push('\n'));
    }
}

/// What is done to the files when a queue is opened, whose waiting heartbeats are written in
/// these lines.
///
/// The file is rewritten with just these lines: this drops delivered and unreadable lines, of
/// which a crash may have left a part that the next append would run into. The count is removed
/// before the new file replaces the old one: a crash in between then sends delivered heartbeats
/// again instead of skipping waiting ones.
pub fn open_actions(waiting: &Vec<String>) -> (actions: Vec<FileAction>)
    ensures
        action_views(actions@) == opening(texts(waiting@)),
{
    let ghost all = texts(waiting@);
    let mut text = String::new();
    let mut i: usize = 0;
    proof {
        assert(text@ =~= joined(all.take(0)));
    }
    while i < waiting.len()
        invariant
            all == texts(waiting@),
            i <= waiting.len(),
            text@ == joined(all.take(i as int)),
        decreases waiting.len() - i,
    {
        let ghost before = text@;
        text.append(waiting[i].as_str());
        text.push('\n');
        proof {
            lemma_joined_push(all.take(i as int), all[i as int]);
            assert(all.take(i + 1) =~= all.take(i as int).push(all[i as int]));
            assert(text@ =~= before + all[i as int].push('\n'));
        }
        i += 1;
    }
    proof {
        assert(all.take(all.len() as int) =~= all);
    }
    let mut actions: Vec<FileAction> = Vec::new();
    actions.push(FileAction::WriteTemp(text));
    actions.push(FileAction::RemoveOffset);
    actions.push(FileAction::ReplaceByTemp);
    proof {
        assert(action_views(actions@) =~= opening(all));
    }
    actions
}

/// The actions that open a queue.
pub open spec fn opening(waiting: Seq<Seq<char>>) -> Seq<FileActionView> {
    seq![
        FileActionView::WriteTemp(joined(waiting)),
        FileActionView::RemoveOffset,
        FileActionView::ReplaceByTemp,
    ]
}

/// What is done to the files to queue a heartbeat, which is written in this line.
pub fn append_action(line: &str) -> (action: FileAction)
    ensures
        action@ == FileActionView::Append(line@.push('\n')),
{
    let mut text = line.to_string();
    text.push('\n');
    FileAction::Append(text)
}

/// How much of the queue file is delivered.
#[derive(Debug)]
pub struct QueueLog {
    pub delivered: u64,
}

/// The actions that note one more delivered line, after which so many wait.
pub open spec fn marking(delivered: nat, remaining: nat) -> Seq<FileActionView> {
    if remaining == 0 {
        seq![FileActionView::RemoveOffset, FileActionView::Empty]
    } else {
        seq![FileActionView::WriteOffset(decimal(delivered + 1))]
    }
}

impl QueueLog {
    /// The log of a queue that has just been opened.
    pub fn new() -> (log: QueueLog)
        ensures
            log.delivered == 0,
    {
        QueueLog { delivered: 0 }
    }

    /// Notes one more delivered line. Once nothing is left, both files are emptied, the count
    /// first: a crash in between sends heartbeats again, where a stale count would skip the
    /// next ones appended.
    pub fn mark_delivered(&mut self, remaining: usize) -> (actions: Vec<FileAction>)
        requires
            remaining > 0 ==> old(self).delivered < u64::MAX,
        ensures
            action_views(actions@) == marking(old(self).delivered as nat, remaining as nat),
            final(self).delivered == if remaining == 0 {
                old(self).delivered as int
            } else {
                old(self).delivered + 1
            },
    {
        let mut actions: Vec<FileAction> = Vec::new();
        if remaining == 0 {
            actions.push(FileAction::RemoveOffset);
            actions.push(FileAction::Empty);
        } else {
            self.delivered = self.delivered + 1;
            actions.push(FileAction::WriteOffset(decimal_text(self.delivered as u128)));
        }
        proof {
            assert(action_views(actions@) =~= marking(
                old(self).delivered as nat,
                remaining as nat,
            ));
        }
        actions
    }

    /// Notes that an action has been performed.
    pub fn performed(&mut self, action: &FileAction)
        ensures
            final(self).delivered == if action@ is RemoveOffset {
                0
            } else {
                old(self).delivered
            },
    {
        match action {
            FileAction::RemoveOffset => {
                self.delivered = 0;
            },
            _ => {},
        }
    }
}

/// The files after an action, or after a crash in the middle of it that leaves the first `k`
/// characters of what it writes.
pub open spec fn performed_up_to(disk: QueueDisk, action: FileActionView, k: int) -> QueueDisk {
    match action {
        FileActionView::WriteTemp(text) => QueueDisk { temp: text.take(k), ..disk },
        FileActionView::RemoveOffset => QueueDisk { offset: None, ..disk },
        FileActionView::ReplaceByTemp => QueueDisk {
            contents: disk.temp,
            temp: Seq::empty(),
            ..disk
        },
        FileActionView::Append(text) => QueueDisk { contents: disk.contents + text.take(k), ..disk },
        FileActionView::Empty => QueueDisk { contents: Seq::empty(), ..disk },
        FileActionView::WriteOffset(text) => QueueDisk { offset: Some(text.take(k)), ..disk },
    }
}

/// How many characters an action writes.
pub open spec fn written(action: FileActionView) -> int {
    match action {
        FileActionView::WriteTemp(text) => text.len() as int,
        FileActionView::Append(text) => text.len() as int,
        FileActionView::WriteOffset(text) => text.len() as int,
        _ => 0,
    }
}

/// The files after a number of actions.
pub open spec fn performed_all(disk: QueueDisk, actions: Seq<FileActionView>) -> QueueDisk
    decreases actions.len(),
{
    if actions.len() == 0 {
        disk
    } else {
        performed_up_to(
            performed_all(disk, actions.drop_last()),
            actions.last(),
            written(actions.last()),
        )
    }
}

/// The files after a crash in the middle of the action `at`, which leaves the first `k`
/// characters of what it writes.
pub open spec fn crashed(disk: QueueDisk, actions: Seq<FileActionView>, at: int, k: int) -> QueueDisk {
    performed_up_to(performed_all(disk, actions.take(at)), actions[at], k)
}

/// A line as heartbeats are written: not blank, without a line break.
pub open spec fn proper_line(line: Seq<char>) -> bool {
    &&& !blank(line)
    &&& forall|i: int| 0 <= i < line.len() ==> #[trigger] line[i] != '\n' && line[i] != '\r'
}

/// The queue file holds the lines `all` and perhaps a part of one more, and the lines of `queue`
/// are the last ones of `all`, of which none is counted as delivered.
pub open spec fn keeps(
    disk: QueueDisk,
    all: Seq<Seq<char>>,
    partial: Seq<char>,
    queue: Seq<Seq<char>>,
) -> bool {
    &&& disk.contents == joined(all) + partial
    &&& forall|i: int| 0 <= i < all.len() ==> proper_line(#[trigger] all[i])
    &&& forall|i: int| 0 <= i < partial.len() ==> #[trigger] partial[i] != '\n'
    &&& queue.len() <= all.len()
    &&& queue == all.skip(all.len() - queue.len())
    &&& offset_value(disk.offset) + queue.len() <= all.len()
}

proof fn lemma_lines_of_joined(all: Seq<Seq<char>>, partial: Seq<char>)
    requires
        forall|i: int| 0 <= i < all.len() ==> proper_line(#[trigger] all[i]),
        forall|i: int| 0 <= i < partial.len() ==> #[trigger] partial[i] != '\n',
    ensures
        lines(joined(all) + partial) == if partial.len() > 0 {
            all.push(partial)
        } else {
            all
        },
    decreases all.len(),
{
    let text = joined(all) + partial;
    if all.len() == 0 {
        assert(text =~= partial);
        if partial.len() > 0 {
            lemma_line_end_is(text, text.len() as int);
            assert(lines(text) =~= all.push(partial));
        } else {
            assert(lines(text) =~= all);
        }
    } else {
        let first = all[0];
        let rest = all.drop_first();
        let end = first.len() as int;
        assert forall|i: int| 0 <= i < rest.len() implies proper_line(#[trigger] rest[i]) by {
            assert(rest[i] == all[i + 1]);
        }
        lemma_lines_of_joined(rest, partial);
        assert(proper_line(first));
        assert(text =~= first.push('\n') + (joined(rest) + partial));
        assert forall|i: int| 0 <= i < end implies #[trigger] text[i] != '\n' by {
            assert(text[i] == first[i]);
        }
        lemma_line_end_is(text, end);
        assert(text.take(end) =~= first);
        assert(without_return(first) == first) by {
            if first.len() > 0 {
                assert(first[first.len() - 1] != '\r');
            }
        }
        assert(text.skip(end + 1) =~= joined(rest) + partial);
        let later = lines(joined(rest) + partial);
        assert(lines(text) =~= seq![first] + later);
        if partial.len() > 0 {
            assert(seq![first] + rest.push(partial) =~= all.push(partial));
        } else {
            assert(seq![first] + rest =~= all);
        }
    }
}

proof fn lemma_waiting_of_proper(all: Seq<Seq<char>>, delivered: nat)
    requires
        forall|i: int| 0 <= i < all.len() ==> proper_line(#[trigger] all[i]),
    ensures
        delivered <= all.len() ==> waiting_lines(all, delivered) == Seq::new(
            (all.len() - delivered) as nat,
            |i: int| ((delivered + i + 1) as nat, all[delivered + i]),
        ),
        all.len() <= delivered ==> waiting_lines(all, delivered) == Seq::<(nat, Seq<char>)>::empty(),
    decreases all.len(),
{
    if all.len() > 0 {
        let shorter = all.drop_last();
        assert forall|i: int| 0 <= i < shorter.len() implies proper_line(#[trigger] shorter[i]) by {
            assert(shorter[i] == all[i]);
        }
        lemma_waiting_of_proper(shorter, delivered);
        assert(proper_line(all[all.len() - 1]));
        if delivered < all.len() {
            let wanted = Seq::new(
                (all.len() - delivered) as nat,
                |i: int| ((delivered + i + 1) as nat, all[delivered + i]),
            );
            assert(waiting_lines(all, delivered) =~= wanted);
        } else if delivered == all.len() {
            assert(waiting_lines(all, delivered) =~= Seq::<(nat, Seq<char>)>::empty());
        }
    } else {
        assert(waiting_lines(all, delivered) =~= Seq::<(nat, Seq<char>)>::empty());
        if delivered == 0 {
            assert(waiting_lines(all, delivered) =~= Seq::new(
                (all.len() - delivered) as nat,
                |i: int| ((delivered + i + 1) as nat, all[delivered + i]),
            ));
        }
    }
}

/// A queue that is opened finds every heartbeat that was queued, in order: its lines are the
/// last ones that wait, but for a part of a line that a crash may have left.
pub proof fn law_reopening_finds_every_heartbeat(
    disk: QueueDisk,
    all: Seq<Seq<char>>,
    partial: Seq<char>,
    queue: Seq<Seq<char>>,
)
    requires
        keeps(disk, all, partial, queue),
    ensures
        ({
            let waiting = waiting_lines(lines(disk.contents), offset_value(disk.offset));
            let extra: int = if blank(partial) {
                0
            } else {
                1
            };
            let from = waiting.len() - extra - queue.len();
            &&& from >= 0
            &&& forall|i: int| 0 <= i < queue.len() ==> waiting[from + i].1 == #[trigger] queue[i]
            &&& !blank(partial) ==> waiting.last().1 == partial
        }),
{
    let delivered = offset_value(disk.offset);
    lemma_lines_of_joined(all, partial);
    lemma_waiting_of_proper(all, delivered);
    let waiting = waiting_lines(lines(disk.contents), delivered);
    let kept = waiting_lines(all, delivered);
    if partial.len() > 0 {
        assert(all.push(partial).drop_last() =~= all);
        assert(all.push(partial).last() == partial);
    } else {
        assert(blank(partial));
    }
    let from = kept.len() - queue.len();
    assert forall|i: int| 0 <= i < queue.len() implies waiting[from + i].1 == #[trigger] queue[i] by {
        assert(queue[i] == all[all.len() - queue.len() + i]);
        assert(waiting[from + i] == kept[from + i]);
    }
}

proof fn lemma_digits_trim_to_themselves(text: Seq<char>)
    requires
        all_digits(text),
    ensures
        trimmed(text) == text,
{
    if text.len() > 0 {
        assert(is_digit(text[0]));
        assert(is_digit(text[text.len() - 1]));
    }
}

proof fn lemma_decimal_is_digits(n: nat)
    ensures
        all_digits(decimal(n)),
    decreases n,
{
    if n >= 10 {
        lemma_decimal_is_digits(n / 10);
        let head = decimal(n / 10);
        assert forall|i: int| 0 <= i < decimal(n).len() implies is_digit(
            #[trigger] decimal(n)[i],
        ) by {
            if i < head.len() {
                assert(decimal(n)[i] == head[i]);
            }
        }
    }
}

proof fn lemma_partial_offset(n: nat, k: int)
    requires
        0 <= k <= decimal(n).len(),
    ensures
        offset_value(Some(decimal(n).take(k))) <= n,
{
    lemma_decimal_is_digits(n);
    let part = decimal(n).take(k);
    assert forall|i: int| 0 <= i < part.len() implies is_digit(#[trigger] part[i]) by {
        assert(part[i] == decimal(n)[i]);
    }
    lemma_digits_trim_to_themselves(part);
    law_decimal_prefix_is_no_larger(n, k, u64::MAX as nat);
}

/// A crash while a heartbeat is appended loses none that was queued before. Once the line is
/// written, the heartbeat is kept as well.
pub proof fn law_crash_in_append_loses_nothing(
    disk: QueueDisk,
    all: Seq<Seq<char>>,
    queue: Seq<Seq<char>>,
    line: Seq<char>,
    k: int,
)
    requires
        keeps(disk, all, Seq::empty(), queue),
        proper_line(line),
        0 <= k <= line.len() + 1,
    ensures
        ({
            let after = performed_up_to(disk, FileActionView::Append(line.push('\n')), k);
            if k <= line.len() {
                keeps(after, all, line.take(k), queue)
            } else {
                keeps(after, all.push(line), Seq::empty(), queue.push(line))
            }
        }),
{
    let text = line.push('\n');
    assert(disk.contents =~= joined(all));
    if k <= line.len() {
        assert(text.take(k) =~= line.take(k));
    } else {
        assert(text.take(k) =~= text);
        lemma_joined_push(all, line);
        let longer = all.push(line);
        assert(disk.contents + text =~= joined(longer) + Seq::<char>::empty());
        assert forall|i: int| 0 <= i < longer.len() implies proper_line(#[trigger] longer[i]) by {
            if i < all.len() {
                assert(longer[i] == all[i]);
            }
        }
        assert(queue.push(line) =~= longer.skip(longer.len() - (queue.len() + 1)));
    }
}

/// Whether the count of delivered lines goes with the lines of the file and those that wait.
pub open spec fn in_step(delivered: nat, all: Seq<Seq<char>>, queue: Seq<Seq<char>>) -> bool {
    delivered + queue.len() == all.len()
}

/// The count of delivered lines goes with the file when the queue has been opened, and stays so
/// whenever a heartbeat is queued, one of several is delivered, or the last one is.
pub proof fn law_count_stays_in_step(
    delivered: nat,
    all: Seq<Seq<char>>,
    queue: Seq<Seq<char>>,
    line: Seq<char>,
)
    ensures
        in_step(0, queue, queue),
        in_step(delivered, all, queue) ==> in_step(delivered, all.push(line), queue.push(line)),
        in_step(delivered, all, queue) && queue.len() > 1 ==> in_step(
            delivered + 1,
            all,
            queue.drop_first(),
        ),
        queue.len() == 1 ==> in_step(0, Seq::empty(), queue.drop_first()),
{
}

/// The queue file holds the lines `all`, of which those before the ones of `queue`, and no
/// others, are counted as delivered.
pub open spec fn holds_exactly(disk: QueueDisk, all: Seq<Seq<char>>, queue: Seq<Seq<char>>) -> bool {
    &&& keeps(disk, all, Seq::empty(), queue)
    &&& in_step(offset_value(disk.offset), all, queue)
}

/// A queue that is opened after all was done finds just the heartbeats that wait, in order. No
/// delivered line comes back.
pub proof fn law_reopening_finds_no_delivered_line(
    disk: QueueDisk,
    all: Seq<Seq<char>>,
    queue: Seq<Seq<char>>,
)
    requires
        holds_exactly(disk, all, queue),
    ensures
        waiting_lines(lines(disk.contents), offset_value(disk.offset)).map_values(
            |w: (nat, Seq<char>)| w.1,
        ) == queue,
{
    let delivered = offset_value(disk.offset);
    lemma_lines_of_joined(all, Seq::empty());
    lemma_waiting_of_proper(all, delivered);
    let found = waiting_lines(lines(disk.contents), delivered).map_values(
        |w: (nat, Seq<char>)| w.1,
    );
    assert forall|i: int| 0 <= i < queue.len() implies #[trigger] found[i] == queue[i] by {
        assert(queue[i] == all[delivered + i]);
    }
    assert(found =~= queue);
}

/// The files hold exactly what waits once a queue has been opened, and go on to do so whenever
/// a heartbeat has been appended or the first one has been noted as delivered.
pub proof fn law_files_hold_exactly_what_waits(
    disk: QueueDisk,
    all: Seq<Seq<char>>,
    queue: Seq<Seq<char>>,
    line: Seq<char>,
)
    requires
        holds_exactly(disk, all, queue),
        proper_line(line),
        all.len() <= u64::MAX,
    ensures
        holds_exactly(performed_all(disk, opening(queue)), queue, queue),
        holds_exactly(
            performed_up_to(
                disk,
                FileActionView::Append(line.push('\n')),
                written(FileActionView::Append(line.push('\n'))),
            ),
            all.push(line),
            queue.push(line),
        ),
        queue.len() > 0 ==> holds_exactly(
            performed_all(
                disk,
                marking(offset_value(disk.offset), (queue.len() - 1) as nat),
            ),
            if queue.len() == 1 {
                Seq::empty()
            } else {
                all
            },
            queue.drop_first(),
        ),
{
    let open = opening(queue);
    assert forall|i: int| 0 <= i < queue.len() implies proper_line(#[trigger] queue[i]) by {
        assert(queue[i] == all[all.len() - queue.len() + i]);
    }
    law_crash_in_opening_loses_nothing(disk, all, Seq::empty(), queue, queue, 2, 0);
    assert(performed_all(disk, open) == crashed(disk, open, 2, 0)) by {
        assert(open.drop_last() =~= open.take(2));
        assert(open.last() == open[2]);
    }
    reveal_with_fuel(performed_all, 4);
    assert(open.take(2).last() == FileActionView::RemoveOffset);
    assert(performed_all(disk, open).offset is None);
    law_crash_in_append_loses_nothing(disk, all, queue, line, (line.len() + 1) as int);
    if queue.len() > 0 {
        let delivered = offset_value(disk.offset);
        let remaining = (queue.len() - 1) as nat;
        let actions = marking(delivered, remaining);
        if remaining == 0 {
            law_crash_in_marking_loses_nothing(disk, all, queue, delivered, 1, 0);
            assert(actions.drop_last() =~= actions.take(1));
            assert(actions.take(1).drop_last() =~= Seq::<FileActionView>::empty());
            assert(queue.drop_first() =~= Seq::<Seq<char>>::empty());
        } else {
            let digits = decimal(delivered + 1);
            law_crash_in_marking_loses_nothing(
                disk,
                all,
                queue,
                delivered,
                0,
                digits.len() as int,
            );
            assert(actions.drop_last() =~= actions.take(0));
            assert(digits.take(digits.len() as int) =~= digits);
            lemma_decimal_is_digits(delivered + 1);
            lemma_digits_trim_to_themselves(digits);
            law_decimal_reads_back(delivered + 1, u64::MAX as nat);
        }
    }
}

/// A crash at any point while the first heartbeat of a queue is noted as delivered loses none
/// of the others. So it is too when all is done.
pub proof fn law_crash_in_marking_loses_nothing(
    disk: QueueDisk,
    all: Seq<Seq<char>>,
    queue: Seq<Seq<char>>,
    delivered: nat,
    at: int,
    k: int,
)
    requires
        keeps(disk, all, Seq::empty(), queue),
        queue.len() > 0,
        in_step(delivered, all, queue),
        0 <= at < marking(delivered, (queue.len() - 1) as nat).len(),
        0 <= k <= written(marking(delivered, (queue.len() - 1) as nat)[at]),
    ensures
        ({
            let actions = marking(delivered, (queue.len() - 1) as nat);
            let after = crashed(disk, actions, at, k);
            let kept = if at == 1 {
                Seq::empty()
            } else {
                all
            };
            keeps(after, kept, Seq::empty(), queue.drop_first())
        }),
{
    let remaining = (queue.len() - 1) as nat;
    let actions = marking(delivered, remaining);
    let rest = queue.drop_first();
    assert(rest =~= all.skip(all.len() - rest.len()));
    assert(actions.take(0) =~= Seq::<FileActionView>::empty());
    assert(performed_all(disk, actions.take(0)) == disk);
    if remaining == 0 {
        if at == 1 {
            assert(actions.take(1).drop_last() =~= Seq::<FileActionView>::empty());
            assert(actions.take(1).last() == FileActionView::RemoveOffset);
            reveal_with_fuel(performed_all, 2);
            let none = Seq::<Seq<char>>::empty();
            assert(rest =~= none.skip(0));
            assert(joined(none) + Seq::<char>::empty() =~= Seq::<char>::empty());
        }
    } else {
        lemma_partial_offset(delivered + 1, k);
    }
}

/// A crash at any point while a queue is opened loses nothing: either the old lines are all
/// still there and no more of them are counted as delivered, or the file holds the lines that
/// wait and none of them is counted.
pub proof fn law_crash_in_opening_loses_nothing(
    disk: QueueDisk,
    all: Seq<Seq<char>>,
    partial: Seq<char>,
    queue: Seq<Seq<char>>,
    waiting: Seq<Seq<char>>,
    at: int,
    k: int,
)
    requires
        keeps(disk, all, partial, queue),
        forall|i: int| 0 <= i < waiting.len() ==> proper_line(#[trigger] waiting[i]),
        0 <= at < 3,
        0 <= k <= written(opening(waiting)[at]),
    ensures
        ({
            let after = crashed(disk, opening(waiting), at, k);
            if at < 2 {
                keeps(after, all, partial, queue)
            } else {
                keeps(after, waiting, Seq::empty(), waiting)
            }
        }),
{
    let actions = opening(waiting);
    let text = joined(waiting);
    reveal_with_fuel(performed_all, 3);
    assert(actions.take(0) =~= Seq::<FileActionView>::empty());
    assert(actions.take(1).drop_last() =~= actions.take(0));
    assert(actions.take(2).drop_last() =~= actions.take(1));
    assert(text.take(text.len() as int) =~= text);
    if at == 2 {
        assert(text + Seq::<char>::empty() =~= text);
        assert(waiting.skip(0) =~= waiting);
    }
}

} // verus!
