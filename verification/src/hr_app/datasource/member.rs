use crate::hr_app::domain::department::id::DepartmentId;
use crate::hr_app::domain::department::list::DepartmentList;
use crate::hr_app::domain::member::{
    enumerates, link_fault, spec_listed_departments, spec_person_numbers, MemberList, MemberView,
};
use crate::hr_app::domain::person::id::PersonId;
use crate::hr_app::domain::person::list::PersonList;
use crate::hr_app::domain::person::name::PersonNameView;
use crate::hr_app::domain::registry::RegistryView;
use crate::hr_app::error::HrError;
use crate::hr_app::text::decimal::{
    decimal, law_decimal_is_a_word, law_decimal_round_trip, parse_decimal, parse_u64,
};
use crate::hr_app::text::words::{
    is_line, is_word, join_lines, join_words, law_join_lines_distributes,
    law_joined_lines_are_split, law_joined_words_are_split, lines, split_lines, split_words,
    texts_of, words,
};
use vstd::prelude::*;
use vstd::string::StringExecFns;

verus! {

/// The name of the file of memberships, below the directory of the store.
pub const MEMBER_FILE_NAME: &'static str = "/member.txt";

/// What one line of the file says: a department and a person, in this
/// order.
pub open spec fn parse_line(line: Seq<char>) -> Result<(u64, u64), HrError> {
    let fields = words(line);
    if fields.len() != 2 {
        Err(HrError::FormatError)
    } else {
        match parse_decimal(fields[0]) {
            None => Err(HrError::FormatError),
            Some(department) => match parse_decimal(fields[1]) {
                None => Err(HrError::FormatError),
                Some(person) => Ok((department, person)),
            },
        }
    }
}

/// What the lines of the file say, first to last, or the fault of the
/// first line that is refused.
pub open spec fn parse_lines(lines: Seq<Seq<char>>) -> Result<Seq<(u64, u64)>, HrError>
    decreases lines.len(),
{
    if lines.len() == 0 {
        Ok(Seq::empty())
    } else {
        match parse_lines(lines.drop_last()) {
            Err(e) => Err(e),
            Ok(records) => match parse_line(lines.last()) {
                Err(e) => Err(e),
                Ok(record) => Ok(records.push(record)),
            },
        }
    }
}

/// The index after the memberships `records` were made in it, first to
/// last, together with the fault of the first record that it refused:
/// nothing is made from that record on.
pub open spec fn link_records(
    members: MemberView,
    persons: RegistryView<PersonNameView>,
    departments: RegistryView<Seq<char>>,
    records: Seq<(u64, u64)>,
) -> (MemberView, Option<HrError>)
    decreases records.len(),
{
    if records.len() == 0 {
        (members, None)
    } else {
        let (before, fault) = link_records(members, persons, departments, records.drop_last());
        if fault is Some {
            (before, fault)
        } else {
            match link_fault(before, persons, departments, records.last().1, records.last().0) {
                Some(e) => (before, Some(e)),
                None => (before.link(records.last().0, records.last().1), None),
            }
        }
    }
}

/// The line that records one membership.
pub open spec fn record_line(department: u64, person: u64) -> Seq<char> {
    decimal(department as nat) + seq![' '] + decimal(person as nat) + seq!['\n']
}

/// The lines that record the memberships of `persons` in `department`,
/// in the order of `persons`.
pub open spec fn entry_lines(department: u64, persons: Seq<u64>) -> Seq<char>
    decreases persons.len(),
{
    if persons.len() == 0 {
        Seq::empty()
    } else {
        entry_lines(department, persons.drop_last()) + record_line(department, persons.last())
    }
}

/// The lines that record `entries`, each a department with its members,
/// in the order of `entries`.
pub open spec fn record_lines(entries: Seq<(u64, Seq<u64>)>) -> Seq<char>
    decreases entries.len(),
{
    if entries.len() == 0 {
        Seq::empty()
    } else {
        record_lines(entries.drop_last()) + entry_lines(entries.last().0, entries.last().1)
    }
}

/// `entries` holds the departments of the index in ascending order,
/// each with its members, each once, in some order.
pub open spec fn describes(entries: Seq<(u64, Seq<u64>)>, members: MemberView) -> bool {
    &&& members.lists_entries(Seq::new(entries.len(), |i: int| entries[i].0))
    &&& forall|i: int|
        0 <= i < entries.len() ==> enumerates(
            (#[trigger] entries[i]).1,
            members.index[entries[i].0],
        )
}

/// `text` records the memberships of `members`, one line each: the
/// departments in ascending order, the members of one department
/// together, in some order.
pub open spec fn records_index(text: Seq<char>, members: MemberView) -> bool {
    exists|entries: Seq<(u64, Seq<u64>)>| #[trigger]
        describes(entries, members) && text == record_lines(entries)
}

/// What a listing of the index holds.
pub open spec fn spec_entries(listing: Seq<(DepartmentId, Vec<PersonId>)>) -> Seq<(u64, Seq<u64>)> {
    Seq::new(listing.len(), |i: int| (listing[i].0@, spec_person_numbers(listing[i].1@)))
}

/// The file of memberships of a store kept in text files.
pub struct TextFileMember {
    dir_path: String,
}

impl TextFileMember {
    /// The directory of the store.
    pub closed spec fn dir_path(&self) -> Seq<char> {
        self.dir_path@
    }

    /// The file of a store kept in the directory `path`.
    pub fn new(path: &str) -> (store: TextFileMember)
        ensures
            store.dir_path() == path@,
    {
        TextFileMember { dir_path: String::from_str(path) }
    }

    /// Where the file stands.
    pub fn file_path(&self) -> (path: String)
        ensures
            path@ == self.dir_path() + MEMBER_FILE_NAME@,
    {
        let mut file_path = String::new();
        file_path.append(self.dir_path.as_str());
        file_path.append(MEMBER_FILE_NAME);
        assert(file_path@ =~= self.dir_path() + MEMBER_FILE_NAME@);
        file_path
    }

    /// Reads one line of the file.
    fn read_line(line: &str) -> (read: Result<(u64, u64), HrError>)
        ensures
            read == parse_line(line@),
    {
        let info = split_words(line);
        assert(forall|i: int| 0 <= i < info.len() ==> info[i]@ == texts_of(info@)[i]);
        if info.len() != 2 {
            return Err(HrError::FormatError);
        }
        let department = match parse_u64(info[0].as_str()) {
            Some(id) => id,
            None => {
                return Err(HrError::FormatError);
            },
        };
        let person = match parse_u64(info[1].as_str()) {
            Some(id) => id,
            None => {
                return Err(HrError::FormatError);
            },
        };
        Ok((department, person))
    }

    /// Brings the memberships that `contents` records into `member_list`.
    /// Where a line is refused nothing is brought in.
    pub fn read_records(
        contents: &str,
        member_list: &mut MemberList,
        person_list: &PersonList,
        department_list: &DepartmentList,
    ) -> (loaded: Result<(), HrError>)
        requires
            old(member_list).wf(),
            person_list.wf(),
            department_list.wf(),
        ensures
            final(member_list).wf(),
            match parse_lines(lines(contents@)) {
                Err(e) => loaded == Err::<(), HrError>(e) && final(member_list)@ == old(
                    member_list,
                )@,
                Ok(records) => {
                    &&& final(member_list)@ == link_records(
                        old(member_list)@,
                        person_list@,
                        department_list@,
                        records,
                    ).0
                    &&& match link_records(
                        old(member_list)@,
                        person_list@,
                        department_list@,
                        records,
                    ).1 {
                        Some(e) => loaded == Err::<(), HrError>(e),
                        None => loaded is Ok,
                    }
                },
            },
    {
        let members = split_lines(contents);
        let ghost all = lines(contents@);
        assert(forall|i: int| 0 <= i < members.len() ==> members[i]@ == texts_of(members@)[i]);
        let mut staged: Vec<(u64, u64)> = Vec::new();
        let mut index: usize = 0;
        proof {
            assert(all.take(0) =~= Seq::<Seq<char>>::empty());
        }
        while index < members.len()
            invariant
                index <= members.len(),
                all == lines(contents@),
                all == texts_of(members@),
                *member_list == *old(member_list),
                member_list.wf(),
                parse_lines(all.take(index as int)) == Ok::<Seq<(u64, u64)>, HrError>(staged@),
            decreases members.len() - index,
        {
            proof {
                assert(all.take(index + 1).drop_last() =~= all.take(index as int));
                assert(all.take(index + 1).last() == members[index as int]@);
            }
            match Self::read_line(members[index].as_str()) {
                Ok(record) => {
                    staged.push(record);
                },
                Err(e) => {
                    proof {
                        lemma_refused_for_good(all, index + 1);
                    }
                    return Err(e);
                },
            }
            index = index + 1;
        }
        proof {
            assert(all.take(index as int) =~= all);
            assert(staged@.take(0) =~= Seq::<(u64, u64)>::empty());
        }
        let ghost start = member_list@;
        let mut index: usize = 0;
        while index < staged.len()
            invariant
                index <= staged.len(),
                member_list.wf(),
                person_list.wf(),
                department_list.wf(),
                start == old(member_list)@,
                parse_lines(lines(contents@)) == Ok::<Seq<(u64, u64)>, HrError>(staged@),
                link_records(start, person_list@, department_list@, staged@.take(index as int))
                    == (member_list@, None::<HrError>),
            decreases staged.len() - index,
        {
            proof {
                assert(staged@.take(index + 1).drop_last() =~= staged@.take(index as int));
                assert(staged@.take(index + 1).last() == staged[index as int]);
            }
            let department_id = DepartmentId::new(staged[index].0);
            let person_id = PersonId::new(staged[index].1);
            match member_list.add_person_to_department(
                person_id,
                department_id,
                person_list,
                department_list,
            ) {
                Ok(_) => {},
                Err(e) => {
                    proof {
                        lemma_stopped_for_good(
                            start,
                            person_list@,
                            department_list@,
                            staged@,
                            index + 1,
                        );
                    }
                    return Err(e);
                },
            }
            index = index + 1;
        }
        proof {
            assert(staged@.take(index as int) =~= staged@);
        }
        Ok(())
    }

    /// Writes the memberships of one department, one line each.
    fn render_entry(text: &mut String, department: DepartmentId, persons: &Vec<PersonId>)
        ensures
            final(text)@ == old(text)@ + entry_lines(department@, spec_person_numbers(persons@)),
    {
        let ghost numbers = spec_person_numbers(persons@);
        let ghost start = text@;
        let number = department.to_string();
        let mut index: usize = 0;
        proof {
            reveal_strlit(" ");
            reveal_strlit("\n");
            assert(numbers.take(0) =~= Seq::<u64>::empty());
            assert(text@ =~= start + entry_lines(department@, numbers.take(0)));
        }
        while index < persons.len()
            invariant
                index <= persons.len(),
                numbers == spec_person_numbers(persons@),
                number@ == decimal(department@ as nat),
                " "@ == seq![' '],
                "\n"@ == seq!['\n'],
                text@ == start + entry_lines(department@, numbers.take(index as int)),
            decreases persons.len() - index,
        {
            let ghost before = text@;
            proof {
                assert(numbers.take(index + 1).drop_last() =~= numbers.take(index as int));
                assert(numbers.take(index + 1).last() == persons[index as int]@);
            }
            let person = persons[index].to_string();
            text.append(number.as_str());
            text.append(" ");
            text.append(person.as_str());
            text.append("\n");
            proof {
                assert(text@ =~= before + record_line(department@, persons[index as int]@));
                assert(text@ =~= start + entry_lines(department@, numbers.take(index + 1)));
            }
            index = index + 1;
        }
        proof {
            assert(numbers.take(index as int) =~= numbers);
        }
    }

    /// Writes the memberships of `member_list`, one line each: the
    /// departments in ascending order, the members of one department
    /// together, in no particular order.
    pub fn render(member_list: &MemberList) -> (text: String)
        requires
            member_list.wf(),
        ensures
            records_index(text@, member_list@),
    {
        let listing = member_list.iterate();
        let ghost entries = spec_entries(listing@);
        let mut text = String::new();
        let mut index: usize = 0;
        proof {
            assert(entries.take(0) =~= Seq::<(u64, Seq<u64>)>::empty());
        }
        while index < listing.len()
            invariant
                index <= listing.len(),
                entries == spec_entries(listing@),
                text@ == record_lines(entries.take(index as int)),
            decreases listing.len() - index,
        {
            proof {
                assert(entries.take(index + 1).drop_last() =~= entries.take(index as int));
                assert(entries.take(index + 1).last() == entries[index as int]);
            }
            Self::render_entry(&mut text, listing[index].0, &listing[index].1);
            index = index + 1;
        }
        proof {
            assert(entries.take(index as int) =~= entries);
            assert(Seq::new(entries.len(), |i: int| entries[i].0) =~= spec_listed_departments(
                listing@,
            ));
            assert(describes(entries, member_list@));
        }
        text
    }
}

/// Once a line is refused, the lines are refused with its fault however
/// many follow.
proof fn lemma_refused_for_good(lines: Seq<Seq<char>>, cut: int)
    requires
        0 <= cut <= lines.len(),
        parse_lines(lines.take(cut)) is Err,
    ensures
        parse_lines(lines) == parse_lines(lines.take(cut)),
    decreases lines.len() - cut,
{
    if cut == lines.len() {
        assert(lines.take(cut) =~= lines);
    } else {
        assert(lines.drop_last().take(cut) =~= lines.take(cut));
        lemma_refused_for_good(lines.drop_last(), cut);
    }
}

/// Once a record is refused, nothing more is made however many records
/// follow.
proof fn lemma_stopped_for_good(
    members: MemberView,
    persons: RegistryView<PersonNameView>,
    departments: RegistryView<Seq<char>>,
    records: Seq<(u64, u64)>,
    cut: int,
)
    requires
        0 <= cut <= records.len(),
        link_records(members, persons, departments, records.take(cut)).1 is Some,
    ensures
        link_records(members, persons, departments, records) == link_records(
            members,
            persons,
            departments,
            records.take(cut),
        ),
    decreases records.len() - cut,
{
    if cut == records.len() {
        assert(records.take(cut) =~= records);
    } else {
        assert(records.drop_last().take(cut) =~= records.take(cut));
        lemma_stopped_for_good(members, persons, departments, records.drop_last(), cut);
    }
}

/// The memberships of `persons` in `department`, in the order of
/// `persons`.
pub open spec fn entry_pairs(department: u64, persons: Seq<u64>) -> Seq<(u64, u64)> {
    Seq::new(persons.len(), |i: int| (department, persons[i]))
}

/// The memberships that `entries` hold, in their order: a department
/// first, a person second.
pub open spec fn pairs_of(entries: Seq<(u64, Seq<u64>)>) -> Seq<(u64, u64)>
    decreases entries.len(),
{
    if entries.len() == 0 {
        Seq::empty()
    } else {
        pairs_of(entries.drop_last()) + entry_pairs(entries.last().0, entries.last().1)
    }
}

/// The lines that were written for `pairs`, without their line feeds.
spec fn written_lines(pairs: Seq<(u64, u64)>) -> Seq<Seq<char>> {
    Seq::new(
        pairs.len(),
        |i: int| join_words(seq![decimal(pairs[i].0 as nat), decimal(pairs[i].1 as nat)]),
    )
}

/// The line of a membership says the membership again.
proof fn lemma_line_is_read_back(department: u64, person: u64)
    ensures
        record_line(department, person) == join_words(
            seq![decimal(department as nat), decimal(person as nat)],
        ) + seq!['\n'],
        is_line(join_words(seq![decimal(department as nat), decimal(person as nat)])),
        parse_line(join_words(seq![decimal(department as nat), decimal(person as nat)])) == Ok::<
            (u64, u64),
            HrError,
        >((department, person)),
{
    let first = decimal(department as nat);
    let second = decimal(person as nat);
    let fields = seq![first, second];
    law_decimal_is_a_word(department as nat);
    law_decimal_is_a_word(person as nat);
    law_decimal_round_trip(department);
    law_decimal_round_trip(person);
    assert(fields.drop_last() =~= seq![first]);
    assert(join_words(seq![first]) == first);
    assert(join_words(fields) =~= first + seq![' '] + second);
    assert forall|i: int| 0 <= i < fields.len() implies is_word(#[trigger] fields[i]) by {}
    law_joined_words_are_split(fields);
    let line = join_words(fields);
    assert forall|i: int| 0 <= i < line.len() implies #[trigger] line[i] != '\n' by {
        if i < first.len() {
            assert(line[i] == first[i]);
        } else if i > first.len() {
            assert(line[i] == second[i - first.len() - 1]);
        }
    }
}

proof fn lemma_entry_is_joined(department: u64, persons: Seq<u64>)
    ensures
        entry_lines(department, persons) == join_lines(
            written_lines(entry_pairs(department, persons)),
        ),
    decreases persons.len(),
{
    let written = written_lines(entry_pairs(department, persons));
    if persons.len() > 0 {
        let front = persons.drop_last();
        lemma_entry_is_joined(department, front);
        lemma_line_is_read_back(department, persons.last());
        assert(written.drop_last() =~= written_lines(entry_pairs(department, front)));
        assert(join_lines(written) =~= join_lines(written.drop_last()) + (written.last()
            + seq!['\n']));
    } else {
        assert(written =~= Seq::<Seq<char>>::empty());
    }
}

proof fn lemma_entries_are_joined(entries: Seq<(u64, Seq<u64>)>)
    ensures
        record_lines(entries) == join_lines(written_lines(pairs_of(entries))),
    decreases entries.len(),
{
    if entries.len() > 0 {
        let front = entries.drop_last();
        let last = entries.last();
        lemma_entries_are_joined(front);
        lemma_entry_is_joined(last.0, last.1);
        let before = written_lines(pairs_of(front));
        let added = written_lines(entry_pairs(last.0, last.1));
        assert(written_lines(pairs_of(entries)) =~= before + added);
        law_join_lines_distributes(before, added);
    } else {
        assert(written_lines(pairs_of(entries)) =~= Seq::<Seq<char>>::empty());
    }
}

proof fn lemma_lines_are_parsed(pairs: Seq<(u64, u64)>, cut: int)
    requires
        0 <= cut <= pairs.len(),
    ensures
        parse_lines(written_lines(pairs).take(cut)) == Ok::<Seq<(u64, u64)>, HrError>(
            pairs.take(cut),
        ),
    decreases cut,
{
    let written = written_lines(pairs);
    if cut > 0 {
        lemma_lines_are_parsed(pairs, cut - 1);
        assert(written.take(cut).drop_last() =~= written.take(cut - 1));
        lemma_line_is_read_back(pairs[cut - 1].0, pairs[cut - 1].1);
        assert(pairs.take(cut) =~= pairs.take(cut - 1).push(pairs[cut - 1]));
    } else {
        assert(written.take(cut) =~= Seq::<Seq<char>>::empty());
        assert(pairs.take(cut) =~= Seq::<(u64, u64)>::empty());
    }
}

/// The lines that record memberships say the memberships again, in the
/// same order.
pub proof fn law_written_is_read(entries: Seq<(u64, Seq<u64>)>)
    ensures
        parse_lines(lines(record_lines(entries))) == Ok::<Seq<(u64, u64)>, HrError>(
            pairs_of(entries),
        ),
{
    let pairs = pairs_of(entries);
    let written = written_lines(pairs);
    assert forall|i: int| 0 <= i < written.len() implies is_line(#[trigger] written[i]) by {
        lemma_line_is_read_back(pairs[i].0, pairs[i].1);
    }
    lemma_entries_are_joined(entries);
    law_joined_lines_are_split(written);
    lemma_lines_are_parsed(pairs, pairs.len() as int);
    assert(written.take(pairs.len() as int) =~= written);
    assert(pairs.take(pairs.len() as int) =~= pairs);
}

/// A membership is among those of `entries` exactly where its person is
/// among the persons of an entry of its department.
proof fn lemma_pairs_of_contains(entries: Seq<(u64, Seq<u64>)>, pair: (u64, u64))
    ensures
        pairs_of(entries).contains(pair) <==> exists|i: int|
            0 <= i < entries.len() && (#[trigger] entries[i]).0 == pair.0
                && entries[i].1.contains(pair.1),
    decreases entries.len(),
{
    if entries.len() > 0 {
        let front = entries.drop_last();
        let last = entries.last();
        let added = entry_pairs(last.0, last.1);
        lemma_pairs_of_contains(front, pair);
        if pairs_of(entries).contains(pair) {
            let k = choose|k: int| 0 <= k < pairs_of(entries).len() && pairs_of(entries)[k] == pair;
            if k < pairs_of(front).len() {
                assert(pairs_of(front)[k] == pair);
                assert(pairs_of(front).contains(pair));
                let i = choose|i: int|
                    0 <= i < front.len() && (#[trigger] front[i]).0 == pair.0
                        && front[i].1.contains(pair.1);
                assert(entries[i] == front[i]);
            } else {
                let j = k - pairs_of(front).len();
                assert(added[j] == pair);
                assert(last.1[j] == pair.1);
                assert(entries[entries.len() - 1].1.contains(pair.1));
            }
        }
        if exists|i: int|
            0 <= i < entries.len() && (#[trigger] entries[i]).0 == pair.0
                && entries[i].1.contains(pair.1) {
            let i = choose|i: int|
                0 <= i < entries.len() && (#[trigger] entries[i]).0 == pair.0
                    && entries[i].1.contains(pair.1);
            if i < front.len() {
                assert(front[i] == entries[i]);
                assert(pairs_of(front).contains(pair));
                let k = choose|k: int| 0 <= k < pairs_of(front).len() && pairs_of(front)[k] == pair;
                assert(pairs_of(entries)[k] == pair);
            } else {
                let j = choose|j: int| 0 <= j < last.1.len() && last.1[j] == pair.1;
                assert(added[j] == pair);
                assert(pairs_of(entries)[pairs_of(front).len() + j] == pair);
            }
        }
    }
}

/// Entries of distinct departments, each without a person twice, hold no
/// membership twice.
proof fn lemma_pairs_of_distinct(entries: Seq<(u64, Seq<u64>)>)
    requires
        forall|i: int, j: int|
            0 <= i < j < entries.len() ==> (#[trigger] entries[i]).0 != (#[trigger] entries[j]).0,
        forall|i: int| 0 <= i < entries.len() ==> (#[trigger] entries[i]).1.no_duplicates(),
    ensures
        pairs_of(entries).no_duplicates(),
    decreases entries.len(),
{
    if entries.len() > 0 {
        let front = entries.drop_last();
        let last = entries.last();
        let added = entry_pairs(last.0, last.1);
        assert forall|i: int, j: int| 0 <= i < j < front.len() implies (#[trigger] front[i]).0 != (
        #[trigger] front[j]).0 by {
            assert(front[i] == entries[i] && front[j] == entries[j]);
        }
        assert forall|i: int| 0 <= i < front.len() implies (
        #[trigger] front[i]).1.no_duplicates() by {
            assert(front[i] == entries[i]);
        }
        lemma_pairs_of_distinct(front);
        let all = pairs_of(entries);
        let before = pairs_of(front);
        assert(entries[entries.len() - 1].1.no_duplicates());
        assert forall|a: int, b: int|
            0 <= a < all.len() && 0 <= b < all.len() && a != b implies all[a] != all[b] by {
            if a < before.len() && b < before.len() {
                assert(before[a] != before[b]);
            } else if a >= before.len() && b >= before.len() {
                assert(last.1[a - before.len()] != last.1[b - before.len()]);
            } else {
                let (low, high) = if a < b {
                    (a, b)
                } else {
                    (b, a)
                };
                assert(all[high].0 == last.0);
                assert(before.contains(all[low]));
                lemma_pairs_of_contains(front, all[low]);
                let i = choose|i: int|
                    0 <= i < front.len() && (#[trigger] front[i]).0 == all[low].0
                        && front[i].1.contains(all[low].1);
                assert(entries[i].0 != entries[entries.len() - 1].0);
            }
        }
    }
}

/// The index after some memberships between live persons and live
/// departments were made in an empty index holds these memberships and
/// no others.
proof fn lemma_links_are_made(
    persons: RegistryView<PersonNameView>,
    departments: RegistryView<Seq<char>>,
    pairs: Seq<(u64, u64)>,
    cut: int,
)
    requires
        departments.wf(),
        pairs.no_duplicates(),
        forall|i: int|
            0 <= i < pairs.len() ==> departments.is_live((#[trigger] pairs[i]).0)
                && persons.is_live(pairs[i].1),
        0 <= cut <= pairs.len(),
    ensures
        link_records(MemberView::empty(), persons, departments, pairs.take(cut)).1 is None,
        link_records(MemberView::empty(), persons, departments, pairs.take(cut)).0.wf(),
        forall|department: u64, person: u64|
            #![trigger pairs.take(cut).contains((department, person))]
            link_records(MemberView::empty(), persons, departments, pairs.take(cut)).0.has_pair(
                department,
                person,
            ) <==> pairs.take(cut).contains((department, person)),
    decreases cut,
{
    let empty = MemberView::empty();
    let made = pairs.take(cut);
    if cut > 0 {
        lemma_links_are_made(persons, departments, pairs, cut - 1);
        let front = pairs.take(cut - 1);
        assert(made.drop_last() =~= front);
        assert(made.last() == pairs[cut - 1]);
        let before = link_records(empty, persons, departments, front).0;
        let pair = pairs[cut - 1];
        assert(departments.is_live(pair.0) && persons.is_live(pair.1));
        assert(!before.has_pair(pair.0, pair.1)) by {
            if front.contains(pair) {
                let k = choose|k: int| 0 <= k < front.len() && front[k] == pair;
                assert(pairs[k] == pairs[cut - 1]);
            }
        }
        let after = link_records(empty, persons, departments, made).0;
        assert(after == before.link(pair.0, pair.1));
        assert forall|department: u64, person: u64|
            #![trigger made.contains((department, person))]
            after.has_pair(department, person) <==> made.contains((department, person)) by {
            if made.contains((department, person)) {
                let k = choose|k: int| 0 <= k < made.len() && made[k] == (department, person);
                if k < cut - 1 {
                    assert(front[k] == (department, person));
                    assert(front.contains((department, person)));
                }
            }
            if front.contains((department, person)) {
                let k = choose|k: int| 0 <= k < front.len() && front[k] == (department, person);
                assert(made[k] == (department, person));
            }
            assert(made[cut - 1] == pair);
        }
    } else {
        assert(made =~= Seq::<(u64, u64)>::empty());
    }
}

/// Where the memberships of an index are made anew in an empty index,
/// none is refused and the same memberships hold, provided that each is
/// between a live person and a live department. A department without
/// members keeps no entry.
pub proof fn law_records_restore_the_pairs(
    members: MemberView,
    persons: RegistryView<PersonNameView>,
    departments: RegistryView<Seq<char>>,
    entries: Seq<(u64, Seq<u64>)>,
)
    requires
        departments.wf(),
        describes(entries, members),
        forall|department: u64, person: u64| #[trigger]
            members.has_pair(department, person) ==> departments.is_live(department)
                && persons.is_live(person),
    ensures
        link_records(MemberView::empty(), persons, departments, pairs_of(entries)).1 is None,
        link_records(MemberView::empty(), persons, departments, pairs_of(entries)).0.wf(),
        link_records(MemberView::empty(), persons, departments, pairs_of(entries)).0.pairs()
            == members.pairs(),
{
    let pairs = pairs_of(entries);
    let listed = Seq::new(entries.len(), |i: int| entries[i].0);
    assert forall|i: int, j: int| 0 <= i < j < entries.len() implies (#[trigger] entries[i]).0 != (
    #[trigger] entries[j]).0 by {
        assert(listed[i] < listed[j]);
    }
    assert forall|i: int| 0 <= i < entries.len() implies (
    #[trigger] entries[i]).1.no_duplicates() by {
        assert(enumerates(entries[i].1, members.index[entries[i].0]));
    }
    lemma_pairs_of_distinct(entries);
    assert forall|pair: (u64, u64)| pairs.contains(pair) <==> #[trigger] members.has_pair(
        pair.0,
        pair.1,
    ) by {
        lemma_pairs_of_contains(entries, pair);
        if pairs.contains(pair) {
            let i = choose|i: int|
                0 <= i < entries.len() && (#[trigger] entries[i]).0 == pair.0
                    && entries[i].1.contains(pair.1);
            assert(members.index.contains_key(listed[i]));
            assert(enumerates(entries[i].1, members.index[entries[i].0]));
            assert(entries[i].1.to_set().contains(pair.1));
        }
        if members.has_pair(pair.0, pair.1) {
            assert(listed.contains(pair.0));
            let i = choose|i: int| 0 <= i < listed.len() && listed[i] == pair.0;
            assert(enumerates(entries[i].1, members.index[entries[i].0]));
            assert(entries[i].1.to_set().contains(pair.1));
            assert(entries[i].1.contains(pair.1));
        }
    }
    assert forall|i: int| 0 <= i < pairs.len() implies departments.is_live((#[trigger] pairs[i]).0)
        && persons.is_live(pairs[i].1) by {
        assert(pairs.contains(pairs[i]));
        assert(members.has_pair(pairs[i].0, pairs[i].1));
    }
    lemma_links_are_made(persons, departments, pairs, pairs.len() as int);
    assert(pairs.take(pairs.len() as int) =~= pairs);
    let loaded = link_records(MemberView::empty(), persons, departments, pairs).0;
    assert forall|pair: (u64, u64)| loaded.pairs().contains(pair) <==> members.pairs().contains(
        pair,
    ) by {
        assert(loaded.has_pair(pair.0, pair.1) <==> pairs.contains((pair.0, pair.1)));
        assert(pairs.contains(pair) <==> members.has_pair(pair.0, pair.1));
    }
    assert(loaded.pairs() =~= members.pairs());
}

} // verus!
