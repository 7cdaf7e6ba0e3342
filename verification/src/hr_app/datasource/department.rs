use crate::hr_app::domain::department::id::DepartmentId;
use crate::hr_app::domain::department::list::{
    add_fault, lists_departments, name_taken, spec_listed_ids, unique_names, DepartmentList,
};
use crate::hr_app::domain::department::name::department_name_fault;
use crate::hr_app::domain::department::Department;
use crate::hr_app::domain::registry::RegistryView;
use crate::hr_app::error::HrError;
use crate::hr_app::text::decimal::{
    decimal, law_decimal_is_a_word, law_decimal_round_trip, parse_decimal, parse_u64,
};
use crate::hr_app::text::words::{
    is_line, is_word, join_lines, join_words, law_joined_lines_are_split,
    law_joined_words_are_split, lines, split_lines, split_words, texts_of, words,
};
use vstd::prelude::*;
use vstd::string::StringExecFns;

verus! {

/// The name of the file of departments, below the directory of the store.
pub const DEPARTMENT_FILE_NAME: &'static str = "/departmetn.txt";

/// What one line of the file says: an identifier and a name.
pub open spec fn parse_line(line: Seq<char>) -> Result<(u64, Seq<char>), HrError> {
    let fields = words(line);
    if fields.len() != 2 {
        Err(HrError::FormatError)
    } else {
        match parse_decimal(fields[0]) {
            None => Err(HrError::FormatError),
            Some(id) => match department_name_fault(fields[1]) {
                Some(fault) => Err(HrError::ValidationError(fault)),
                None => Ok((id, fields[1])),
            },
        }
    }
}

/// What the lines of the file say, first to last, or the fault of the
/// first line that is refused.
pub open spec fn parse_lines(lines: Seq<Seq<char>>) -> Result<Seq<(u64, Seq<char>)>, HrError>
    decreases lines.len(),
{
    if lines.len() == 0 {
        Ok(Seq::empty())
    } else {
        match parse_lines(lines.drop_last()) {
            Err(e) => Err(e),
            Ok(records) => match parse_line(lines.last()) {
                Err(e) => Err(e),
                Ok(record) => Ok(records.push(record)),
            },
        }
    }
}

/// The registry after `records` were created in it, first to last, each
/// under its own identifier, together with the fault of the first record
/// that it refused: nothing is created from that record on.
pub open spec fn add_records(registry: RegistryView<Seq<char>>, records: Seq<(u64, Seq<char>)>) -> (
    RegistryView<Seq<char>>,
    Option<HrError>,
)
    decreases records.len(),
{
    if records.len() == 0 {
        (registry, None)
    } else {
        let (before, fault) = add_records(registry, records.drop_last());
        if fault is Some {
            (before, fault)
        } else {
            match add_fault(before, records.last().1, Some(records.last().0)) {
                Some(e) => (before, Some(e)),
                None => (before.create(records.last().1, Some(records.last().0)), None),
            }
        }
    }
}

/// The line that records one department.
pub open spec fn record_line(id: u64, name: Seq<char>) -> Seq<char> {
    decimal(id as nat) + seq![' '] + name + seq!['\n']
}

/// The lines that record the departments `ids` of `registry`, in the
/// order of `ids`.
pub open spec fn record_lines(registry: RegistryView<Seq<char>>, ids: Seq<u64>) -> Seq<char>
    decreases ids.len(),
{
    if ids.len() == 0 {
        Seq::empty()
    } else {
        record_lines(registry, ids.drop_last()) + record_line(
            ids.last(),
            registry.slots[ids.last()]->0,
        )
    }
}

/// `text` records the live departments of `registry`, one line each, in
/// ascending order of identifier.
pub open spec fn records_registry(text: Seq<char>, registry: RegistryView<Seq<char>>) -> bool {
    exists|ids: Seq<u64>|
        #[trigger] registry.lists_live_ids(ids) && text == record_lines(registry, ids)
}

/// The file of departments of a store kept in text files.
pub struct TextFileDepartment {
    dir_path: String,
}

impl TextFileDepartment {
    /// The directory of the store.
    pub closed spec fn dir_path(&self) -> Seq<char> {
        self.dir_path@
    }

    /// The file of a store kept in the directory `path`.
    pub fn new(path: &str) -> (store: TextFileDepartment)
        ensures
            store.dir_path() == path@,
    {
        TextFileDepartment { dir_path: String::from_str(path) }
    }

    /// Where the file stands.
    pub fn file_path(&self) -> (path: String)
        ensures
            path@ == self.dir_path() + DEPARTMENT_FILE_NAME@,
    {
        let mut file_path = String::new();
        file_path.append(self.dir_path.as_str());
        file_path.append(DEPARTMENT_FILE_NAME);
        assert(file_path@ =~= self.dir_path() + DEPARTMENT_FILE_NAME@);
        file_path
    }

    /// Reads one line of the file.
    fn read_line(line: &str) -> (read: Result<(DepartmentId, Department), HrError>)
        ensures
            match read {
                Ok((id, department)) => parse_line(line@) == Ok::<(u64, Seq<char>), HrError>(
                    (id@, department@),
                ) && department.wf(),
                Err(e) => parse_line(line@) == Err::<(u64, Seq<char>), HrError>(e),
            },
    {
        let info = split_words(line);
        assert(forall|i: int| 0 <= i < info.len() ==> info[i]@ == texts_of(info@)[i]);
        if info.len() != 2 {
            return Err(HrError::FormatError);
        }
        let id = match parse_u64(info[0].as_str()) {
            Some(id) => DepartmentId::new(id),
            None => {
                return Err(HrError::FormatError);
            },
        };
        match Department::new(info[1].as_str()) {
            Ok(department) => Ok((id, department)),
            Err(e) => Err(e),
        }
    }

    /// Brings the departments that `contents` records into
    /// `department_list`. Where a line is refused nothing is brought in.
    pub fn read_records(contents: &str, department_list: &mut DepartmentList) -> (loaded: Result<
        (),
        HrError,
    >)
        requires
            old(department_list).wf(),
        ensures
            final(department_list).wf(),
            match parse_lines(lines(contents@)) {
                Err(e) => loaded == Err::<(), HrError>(e) && final(department_list)@ == old(
                    department_list,
                )@,
                Ok(records) => {
                    &&& final(department_list)@ == add_records(old(department_list)@, records).0
                    &&& match add_records(old(department_list)@, records).1 {
                        Some(e) => loaded == Err::<(), HrError>(e),
                        None => loaded is Ok,
                    }
                },
            },
    {
        let departments = split_lines(contents);
        let ghost all = lines(contents@);
        assert(forall|i: int|
            0 <= i < departments.len() ==> departments[i]@ == texts_of(departments@)[i]);
        let mut staged: Vec<(DepartmentId, Department)> = Vec::new();
        let mut index: usize = 0;
        proof {
            assert(all.take(0) =~= Seq::<Seq<char>>::empty());
            assert(spec_records(staged@) =~= Seq::<(u64, Seq<char>)>::empty());
        }
        while index < departments.len()
            invariant
                index <= departments.len(),
                all == lines(contents@),
                all == texts_of(departments@),
                *department_list == *old(department_list),
                department_list.wf(),
                parse_lines(all.take(index as int)) == Ok::<Seq<(u64, Seq<char>)>, HrError>(
                    spec_records(staged@),
                ),
                forall|i: int| 0 <= i < staged.len() ==> (#[trigger] staged[i]).1.wf(),
            decreases departments.len() - index,
        {
            proof {
                assert(all.take(index + 1).drop_last() =~= all.take(index as int));
                assert(all.take(index + 1).last() == departments[index as int]@);
            }
            match Self::read_line(departments[index].as_str()) {
                Ok(record) => {
                    let ghost before = spec_records(staged@);
                    staged.push(record);
                    assert(spec_records(staged@) =~= before.push((record.0@, record.1@)));
                },
                Err(e) => {
                    proof {
                        lemma_refused_for_good(all, index + 1);
                    }
                    return Err(e);
                },
            }
            index = index + 1;
        }
        proof {
            assert(all.take(index as int) =~= all);
        }
        let ghost records = spec_records(staged@);
        let ghost start = department_list@;
        proof {
            assert(records.take(0) =~= Seq::<(u64, Seq<char>)>::empty());
        }
        for record in it: staged
            invariant
                department_list.wf(),
                start == old(department_list)@,
                parse_lines(lines(contents@)) == Ok::<Seq<(u64, Seq<char>)>, HrError>(records),
                spec_records(it.seq()) == records,
                forall|i: int| 0 <= i < it.seq().len() ==> (#[trigger] it.seq()[i]).1.wf(),
                add_records(start, records.take(it.index())) == (department_list@, None::<HrError>),
        {
            let ghost index = it.index();
            proof {
                assert(records.take(index + 1).drop_last() =~= records.take(index));
                assert(records.take(index + 1).last() == records[index]);
                assert(records[index] == (record.0@, record.1@));
            }
            match department_list.add_department(record.1, Some(record.0)) {
                Ok(_) => {},
                Err(e) => {
                    proof {
                        lemma_stopped_for_good(start, records, index + 1);
                    }
                    return Err(e);
                },
            }
        }
        proof {
            assert(records.take(records.len() as int) =~= records);
        }
        Ok(())
    }

    /// Writes the live departments of `department_list`, one line each,
    /// in ascending order of identifier.
    pub fn render(department_list: &DepartmentList) -> (text: String)
        requires
            department_list.wf(),
        ensures
            records_registry(text@, department_list@),
    {
        let listing = department_list.iterate();
        let ghost ids = spec_listed_ids(listing@);
        let ghost registry = department_list@;
        let mut text = String::new();
        let mut index: usize = 0;
        proof {
            reveal_strlit(" ");
            reveal_strlit("\n");
            assert(ids.take(0) =~= Seq::<u64>::empty());
        }
        while index < listing.len()
            invariant
                index <= listing.len(),
                ids == spec_listed_ids(listing@),
                " "@ == seq![' '],
                "\n"@ == seq!['\n'],
                forall|i: int|
                    0 <= i < listing.len() ==> registry.slots[(#[trigger] listing[i]).0@] == Some(
                        listing[i].1@,
                    ),
                text@ == record_lines(registry, ids.take(index as int)),
            decreases listing.len() - index,
        {
            let ghost before = text@;
            proof {
                assert(ids.take(index + 1).drop_last() =~= ids.take(index as int));
                assert(ids.take(index + 1).last() == listing[index as int].0@);
            }
            let number = listing[index].0.to_string();
            text.append(number.as_str());
            text.append(" ");
            text.append(listing[index].1.as_str());
            text.append("\n");
            proof {
                assert(text@ =~= before + record_line(
                    listing[index as int].0@,
                    listing[index as int].1@,
                ));
            }
            index = index + 1;
        }
        proof {
            assert(ids.take(index as int) =~= ids);
            assert(registry.lists_live_ids(ids));
        }
        text
    }
}

/// What a list of staged departments records.
pub open spec fn spec_records(staged: Seq<(DepartmentId, Department)>) -> Seq<(u64, Seq<char>)> {
    Seq::new(staged.len(), |i: int| (staged[i].0@, staged[i].1@))
}

/// Once a line is refused, the lines are refused with its fault however
/// many follow.
proof fn lemma_refused_for_good(lines: Seq<Seq<char>>, cut: int)
    requires
        0 <= cut <= lines.len(),
        parse_lines(lines.take(cut)) is Err,
    ensures
        parse_lines(lines) == parse_lines(lines.take(cut)),
    decreases lines.len() - cut,
{
    if cut == lines.len() {
        assert(lines.take(cut) =~= lines);
    } else {
        assert(lines.drop_last().take(cut) =~= lines.take(cut));
        lemma_refused_for_good(lines.drop_last(), cut);
    }
}

/// Once a record is refused, nothing more is created however many
/// records follow.
proof fn lemma_stopped_for_good(
    registry: RegistryView<Seq<char>>,
    records: Seq<(u64, Seq<char>)>,
    cut: int,
)
    requires
        0 <= cut <= records.len(),
        add_records(registry, records.take(cut)).1 is Some,
    ensures
        add_records(registry, records) == add_records(registry, records.take(cut)),
    decreases records.len() - cut,
{
    if cut == records.len() {
        assert(records.take(cut) =~= records);
    } else {
        assert(records.drop_last().take(cut) =~= records.take(cut));
        lemma_stopped_for_good(registry, records.drop_last(), cut);
    }
}

/// What the departments `ids` of `registry` are recorded as, in the order
/// of `ids`.
pub open spec fn records_of(registry: RegistryView<Seq<char>>, ids: Seq<u64>) -> Seq<
    (u64, Seq<char>),
> {
    Seq::new(ids.len(), |i: int| (ids[i], registry.slots[ids[i]]->0))
}

/// The departments `ids` of `registry` are live, and the name of each is
/// one word that the bounds of a department name accept.
pub open spec fn recordable(registry: RegistryView<Seq<char>>, ids: Seq<u64>) -> bool {
    forall|i: int|
        0 <= i < ids.len() ==> {
            &&& registry.is_live(#[trigger] ids[i])
            &&& is_word(registry.slots[ids[i]]->0)
            &&& department_name_fault(registry.slots[ids[i]]->0) is None
        }
}

/// The line of a department whose name is one word says the department
/// again.
proof fn lemma_line_is_read_back(id: u64, name: Seq<char>)
    requires
        is_word(name),
        department_name_fault(name) is None,
    ensures
        record_line(id, name) == join_words(seq![decimal(id as nat), name]) + seq!['\n'],
        is_line(join_words(seq![decimal(id as nat), name])),
        parse_line(join_words(seq![decimal(id as nat), name])) == Ok::<
            (u64, Seq<char>),
            HrError,
        >((id, name)),
{
    let number = decimal(id as nat);
    let fields = seq![number, name];
    law_decimal_is_a_word(id as nat);
    law_decimal_round_trip(id);
    assert(fields.drop_last() =~= seq![number]);
    assert(join_words(seq![number]) == number);
    assert(join_words(fields) =~= number + seq![' '] + name);
    assert forall|i: int| 0 <= i < fields.len() implies is_word(#[trigger] fields[i]) by {}
    law_joined_words_are_split(fields);
    let line = join_words(fields);
    assert forall|i: int| 0 <= i < line.len() implies #[trigger] line[i] != '\n' by {
        if i < number.len() {
            assert(line[i] == number[i]);
        } else if i > number.len() {
            assert(line[i] == name[i - number.len() - 1]);
        }
    }
}

/// The lines that were written for `ids`, without their line feeds.
spec fn written_lines(registry: RegistryView<Seq<char>>, ids: Seq<u64>) -> Seq<Seq<char>> {
    Seq::new(
        ids.len(),
        |i: int| join_words(seq![decimal(ids[i] as nat), registry.slots[ids[i]]->0]),
    )
}

/// The lines that record departments whose names are one word each say
/// the departments again, in the same order.
pub proof fn law_written_is_read(registry: RegistryView<Seq<char>>, ids: Seq<u64>)
    requires
        recordable(registry, ids),
    ensures
        parse_lines(lines(record_lines(registry, ids))) == Ok::<Seq<(u64, Seq<char>)>, HrError>(
            records_of(registry, ids),
        ),
{
    let written = written_lines(registry, ids);
    assert forall|i: int| 0 <= i < written.len() implies is_line(#[trigger] written[i]) by {
        assert(registry.is_live(ids[i]));
        lemma_line_is_read_back(ids[i], registry.slots[ids[i]]->0);
    }
    lemma_lines_are_joined(registry, ids, ids.len() as int);
    assert(ids.take(ids.len() as int) =~= ids);
    assert(written.take(ids.len() as int) =~= written);
    law_joined_lines_are_split(written);
    lemma_lines_are_parsed(registry, ids, ids.len() as int);
    assert(records_of(registry, ids).take(ids.len() as int) =~= records_of(registry, ids));
}

proof fn lemma_lines_are_joined(registry: RegistryView<Seq<char>>, ids: Seq<u64>, cut: int)
    requires
        recordable(registry, ids),
        0 <= cut <= ids.len(),
    ensures
        record_lines(registry, ids.take(cut)) == join_lines(
            written_lines(registry, ids).take(cut),
        ),
    decreases cut,
{
    let written = written_lines(registry, ids);
    if cut > 0 {
        lemma_lines_are_joined(registry, ids, cut - 1);
        assert(ids.take(cut).drop_last() =~= ids.take(cut - 1));
        assert(written.take(cut).drop_last() =~= written.take(cut - 1));
        assert(registry.is_live(ids[cut - 1]));
        lemma_line_is_read_back(ids[cut - 1], registry.slots[ids[cut - 1]]->0);
        assert(join_lines(written.take(cut)) =~= join_lines(written.take(cut - 1)) + (written[cut
            - 1] + seq!['\n']));
    } else {
        assert(ids.take(cut) =~= Seq::<u64>::empty());
        assert(written.take(cut) =~= Seq::<Seq<char>>::empty());
    }
}

proof fn lemma_lines_are_parsed(registry: RegistryView<Seq<char>>, ids: Seq<u64>, cut: int)
    requires
        recordable(registry, ids),
        0 <= cut <= ids.len(),
    ensures
        parse_lines(written_lines(registry, ids).take(cut)) == Ok::<
            Seq<(u64, Seq<char>)>,
            HrError,
        >(records_of(registry, ids).take(cut)),
    decreases cut,
{
    let written = written_lines(registry, ids);
    let records = records_of(registry, ids);
    if cut > 0 {
        lemma_lines_are_parsed(registry, ids, cut - 1);
        assert(written.take(cut).drop_last() =~= written.take(cut - 1));
        assert(registry.is_live(ids[cut - 1]));
        lemma_line_is_read_back(ids[cut - 1], registry.slots[ids[cut - 1]]->0);
        assert(records.take(cut) =~= records.take(cut - 1).push(records[cut - 1]));
    } else {
        assert(written.take(cut) =~= Seq::<Seq<char>>::empty());
        assert(records.take(cut) =~= Seq::<(u64, Seq<char>)>::empty());
    }
}

/// Where the live departments of a registry are created anew in a
/// registry in which nothing was created yet, each under its own
/// identifier, none is refused, and the same departments are live under
/// the same identifiers and names. The retired identifiers are not kept.
pub proof fn law_records_restore_the_live(registry: RegistryView<Seq<char>>, ids: Seq<u64>)
    requires
        registry.wf(),
        unique_names(registry),
        registry.lists_live_ids(ids),
    ensures
        add_records(RegistryView::empty(), records_of(registry, ids)).1 is None,
        add_records(RegistryView::empty(), records_of(registry, ids)).0.wf(),
        forall|id: u64|
            #![trigger registry.is_live(id)]
            add_records(RegistryView::empty(), records_of(registry, ids)).0.is_live(id)
                == registry.is_live(id),
        forall|id: u64|
            #![trigger registry.is_live(id)]
            registry.is_live(id) ==> add_records(
                RegistryView::empty(),
                records_of(registry, ids),
            ).0.slots[id] == registry.slots[id],
{
    lemma_records_restore(registry, ids, ids.len() as int);
    let records = records_of(registry, ids);
    assert(records.take(ids.len() as int) =~= records);
    let loaded = add_records(RegistryView::empty(), records).0;
    assert forall|id: u64| #![trigger registry.is_live(id)] loaded.is_live(id) == registry.is_live(
        id,
    ) by {
        if registry.is_live(id) {
            assert(ids.contains(id));
            let j = choose|j: int| 0 <= j < ids.len() && ids[j] == id;
            assert(loaded.is_live(ids[j]));
        }
        if loaded.is_live(id) {
            assert(registry.is_live(id));
        }
    }
    assert forall|id: u64|
        #![trigger registry.is_live(id)]
        registry.is_live(id) implies loaded.slots[id] == registry.slots[id] by {
        assert(loaded.is_live(id));
    }
}

/// `loaded` holds nothing live but what `registry` holds under the same
/// identifier.
spec fn within(loaded: RegistryView<Seq<char>>, registry: RegistryView<Seq<char>>) -> bool {
    forall|id: u64|
        #![trigger loaded.is_live(id)]
        loaded.is_live(id) ==> registry.is_live(id) && loaded.slots[id] == registry.slots[id]
}

proof fn lemma_records_restore(registry: RegistryView<Seq<char>>, ids: Seq<u64>, cut: int)
    requires
        registry.wf(),
        unique_names(registry),
        registry.lists_live_ids(ids),
        0 <= cut <= ids.len(),
    ensures
        add_records(RegistryView::empty(), records_of(registry, ids).take(cut)).1 is None,
        add_records(RegistryView::empty(), records_of(registry, ids).take(cut)).0.wf(),
        cut > 0 ==> add_records(
            RegistryView::empty(),
            records_of(registry, ids).take(cut),
        ).0.highest == ids[cut - 1],
        within(add_records(RegistryView::empty(), records_of(registry, ids).take(cut)).0, registry),
        forall|j: int|
            0 <= j < cut ==> add_records(
                RegistryView::empty(),
                records_of(registry, ids).take(cut),
            ).0.is_live(#[trigger] ids[j]),
    decreases cut,
{
    let records = records_of(registry, ids);
    let empty = RegistryView::<Seq<char>>::empty();
    if cut > 0 {
        lemma_records_restore(registry, ids, cut - 1);
        assert(records.take(cut).drop_last() =~= records.take(cut - 1));
        assert(records.take(cut).last() == records[cut - 1]);
        let before = add_records(empty, records.take(cut - 1)).0;
        let after = add_records(empty, records.take(cut)).0;
        let id = ids[cut - 1];
        let name = registry.slots[id]->0;
        assert(registry.is_live(id));
        assert(id != 0);
        assert(!before.slots.contains_key(id)) by {
            if cut > 1 {
                assert(ids[cut - 2] < ids[cut - 1]);
            }
        }
        assert(!name_taken(before, name)) by {
            if name_taken(before, name) {
                let other = choose|other: u64| #[trigger]
                    before.is_live(other) && before.slots[other] == Some(name);
                assert(registry.is_live(other) && registry.is_live(id));
            }
        }
        assert(after == before.create(name, Some(id)));
        assert forall|id: u64|
            #![trigger after.is_live(id)]
            after.is_live(id) implies registry.is_live(id) && after.slots[id]
            == registry.slots[id] by {
            if id != ids[cut - 1] {
                assert(before.is_live(id));
            }
        }
        assert forall|j: int| 0 <= j < cut implies after.is_live(#[trigger] ids[j]) by {
            if j < cut - 1 {
                assert(before.is_live(ids[j]));
            }
        }
    } else {
        assert(records.take(cut) =~= Seq::<(u64, Seq<char>)>::empty());
    }
}

} // verus!
