use crate::hr_app::domain::person::id::PersonId;
use crate::hr_app::domain::person::list::{add_fault, spec_listed_ids, PersonList};
use crate::hr_app::domain::person::name::{person_name_fault, PersonNameView};
use crate::hr_app::domain::person::Person;
use crate::hr_app::domain::registry::RegistryView;
use crate::hr_app::error::HrError;
use crate::hr_app::text::decimal::{
    decimal, law_decimal_is_a_word, law_decimal_round_trip, parse_decimal, parse_u64,
};
use crate::hr_app::text::words::{
    is_line, is_word, join_lines, join_words, law_joined_lines_are_split,
    law_joined_words_are_split, lines, split_lines, split_words, texts_of, words,
};
use vstd::prelude::*;
use vstd::string::StringExecFns;

verus! {

/// The name of the file of persons, below the directory of the store.
pub const PERSON_FILE_NAME: &'static str = "/person.txt";

/// The name that the fields of a line give: the second field is the last
/// name, the third one, where there is one, the first name.
pub open spec fn name_fields(fields: Seq<Seq<char>>) -> PersonNameView {
    PersonNameView {
        last_name: fields[1],
        first_name: if fields.len() == 3 {
            Some(fields[2])
        } else {
            None
        },
    }
}

/// What one line of the file says: an identifier and a name.
pub open spec fn parse_line(line: Seq<char>) -> Result<(u64, PersonNameView), HrError> {
    let fields = words(line);
    if fields.len() < 2 || fields.len() > 3 {
        Err(HrError::FormatError)
    } else {
        match parse_decimal(fields[0]) {
            None => Err(HrError::FormatError),
            Some(id) => match person_name_fault(name_fields(fields)) {
                Some(fault) => Err(HrError::ValidationError(fault)),
                None => Ok((id, name_fields(fields))),
            },
        }
    }
}

/// What the lines of the file say, first to last, or the fault of the
/// first line that is refused.
pub open spec fn parse_lines(lines: Seq<Seq<char>>) -> Result<Seq<(u64, PersonNameView)>, HrError>
    decreases lines.len(),
{
    if lines.len() == 0 {
        Ok(Seq::empty())
    } else {
        match parse_lines(lines.drop_last()) {
            Err(e) => Err(e),
            Ok(records) => match parse_line(lines.last()) {
                Err(e) => Err(e),
                Ok(record) => Ok(records.push(record)),
            },
        }
    }
}

/// The registry after `records` were created in it, first to last, each
/// under its own identifier, together with the fault of the first record
/// that it refused: nothing is created from that record on.
pub open spec fn add_records(
    registry: RegistryView<PersonNameView>,
    records: Seq<(u64, PersonNameView)>,
) -> (RegistryView<PersonNameView>, Option<HrError>)
    decreases records.len(),
{
    if records.len() == 0 {
        (registry, None)
    } else {
        let (before, fault) = add_records(registry, records.drop_last());
        if fault is Some {
            (before, fault)
        } else {
            match add_fault(before, Some(records.last().0)) {
                Some(e) => (before, Some(e)),
                None => (before.create(records.last().1, Some(records.last().0)), None),
            }
        }
    }
}

/// The line that records one person.
pub open spec fn record_line(id: u64, name: PersonNameView) -> Seq<char> {
    decimal(id as nat) + seq![' '] + name.display() + seq!['\n']
}

/// The lines that record the persons `ids` of `registry`, in the order of
/// `ids`.
pub open spec fn record_lines(registry: RegistryView<PersonNameView>, ids: Seq<u64>) -> Seq<char>
    decreases ids.len(),
{
    if ids.len() == 0 {
        Seq::empty()
    } else {
        record_lines(registry, ids.drop_last()) + record_line(
            ids.last(),
            registry.slots[ids.last()]->0,
        )
    }
}

/// `text` records the live persons of `registry`, one line each, in
/// ascending order of identifier.
pub open spec fn records_registry(text: Seq<char>, registry: RegistryView<PersonNameView>) -> bool {
    exists|ids: Seq<u64>|
        #[trigger] registry.lists_live_ids(ids) && text == record_lines(registry, ids)
}

/// What a list of staged persons records.
pub open spec fn spec_records(staged: Seq<(PersonId, Person)>) -> Seq<(u64, PersonNameView)> {
    Seq::new(staged.len(), |i: int| (staged[i].0@, staged[i].1@))
}

/// The file of persons of a store kept in text files.
pub struct TextFilePerson {
    dir_path: String,
}

impl TextFilePerson {
    /// The directory of the store.
    pub closed spec fn dir_path(&self) -> Seq<char> {
        self.dir_path@
    }

    /// The file of a store kept in the directory `path`.
    pub fn new(path: &str) -> (store: TextFilePerson)
        ensures
            store.dir_path() == path@,
    {
        TextFilePerson { dir_path: String::from_str(path) }
    }

    /// Where the file stands.
    pub fn file_path(&self) -> (path: String)
        ensures
            path@ == self.dir_path() + PERSON_FILE_NAME@,
    {
        let mut file_path = String::new();
        file_path.append(self.dir_path.as_str());
        file_path.append(PERSON_FILE_NAME);
        assert(file_path@ =~= self.dir_path() + PERSON_FILE_NAME@);
        file_path
    }

    /// Reads one line of the file.
    fn read_line(line: &str) -> (read: Result<(PersonId, Person), HrError>)
        ensures
            match read {
                Ok((id, person)) => parse_line(line@) == Ok::<(u64, PersonNameView), HrError>(
                    (id@, person@),
                ) && person.wf(),
                Err(e) => parse_line(line@) == Err::<(u64, PersonNameView), HrError>(e),
            },
    {
        let info = split_words(line);
        assert(forall|i: int| 0 <= i < info.len() ==> info[i]@ == texts_of(info@)[i]);
        if info.len() < 2 || info.len() > 3 {
            return Err(HrError::FormatError);
        }
        let id = match parse_u64(info[0].as_str()) {
            Some(id) => PersonId::new(id),
            None => {
                return Err(HrError::FormatError);
            },
        };
        let last_name = info[1].as_str();
        let first_name = if info.len() == 3 {
            Some(info[2].as_str())
        } else {
            None
        };
        match Person::new(last_name, first_name) {
            Ok(person) => Ok((id, person)),
            Err(e) => Err(e),
        }
    }

    /// Brings the persons that `contents` records into `person_list`.
    /// Where a line is refused nothing is brought in.
    pub fn read_records(contents: &str, person_list: &mut PersonList) -> (loaded: Result<
        (),
        HrError,
    >)
        requires
            old(person_list).wf(),
        ensures
            final(person_list).wf(),
            match parse_lines(lines(contents@)) {
                Err(e) => loaded == Err::<(), HrError>(e) && final(person_list)@ == old(
                    person_list,
                )@,
                Ok(records) => {
                    &&& final(person_list)@ == add_records(old(person_list)@, records).0
                    &&& match add_records(old(person_list)@, records).1 {
                        Some(e) => loaded == Err::<(), HrError>(e),
                        None => loaded is Ok,
                    }
                },
            },
    {
        let persons = split_lines(contents);
        let ghost all = lines(contents@);
        assert(forall|i: int| 0 <= i < persons.len() ==> persons[i]@ == texts_of(persons@)[i]);
        let mut staged: Vec<(PersonId, Person)> = Vec::new();
        let mut index: usize = 0;
        proof {
            assert(all.take(0) =~= Seq::<Seq<char>>::empty());
            assert(spec_records(staged@) =~= Seq::<(u64, PersonNameView)>::empty());
        }
        while index < persons.len()
            invariant
                index <= persons.len(),
                all == lines(contents@),
                all == texts_of(persons@),
                *person_list == *old(person_list),
                person_list.wf(),
                parse_lines(all.take(index as int)) == Ok::<Seq<(u64, PersonNameView)>, HrError>(
                    spec_records(staged@),
                ),
                forall|i: int| 0 <= i < staged.len() ==> (#[trigger] staged[i]).1.wf(),
            decreases persons.len() - index,
        {
            proof {
                assert(all.take(index + 1).drop_last() =~= all.take(index as int));
                assert(all.take(index + 1).last() == persons[index as int]@);
            }
            match Self::read_line(persons[index].as_str()) {
                Ok(record) => {
                    let ghost before = spec_records(staged@);
                    staged.push(record);
                    assert(spec_records(staged@) =~= before.push((record.0@, record.1@)));
                },
                Err(e) => {
                    proof {
                        lemma_refused_for_good(all, index + 1);
                    }
                    return Err(e);
                },
            }
            index = index + 1;
        }
        proof {
            assert(all.take(index as int) =~= all);
        }
        let ghost records = spec_records(staged@);
        let ghost start = person_list@;
        proof {
            assert(records.take(0) =~= Seq::<(u64, PersonNameView)>::empty());
        }
        for record in it: staged
            invariant
                person_list.wf(),
                start == old(person_list)@,
                parse_lines(lines(contents@)) == Ok::<Seq<(u64, PersonNameView)>, HrError>(
                    records,
                ),
                spec_records(it.seq()) == records,
                forall|i: int| 0 <= i < it.seq().len() ==> (#[trigger] it.seq()[i]).1.wf(),
                add_records(start, records.take(it.index())) == (person_list@, None::<HrError>),
        {
            let ghost index = it.index();
            proof {
                assert(records.take(index + 1).drop_last() =~= records.take(index));
                assert(records.take(index + 1).last() == records[index]);
                assert(records[index] == (record.0@, record.1@));
            }
            match person_list.add_person(record.1, Some(record.0)) {
                Ok(_) => {},
                Err(e) => {
                    proof {
                        lemma_stopped_for_good(start, records, index + 1);
                    }
                    return Err(e);
                },
            }
        }
        proof {
            assert(records.take(records.len() as int) =~= records);
        }
        Ok(())
    }

    /// Writes the live persons of `person_list`, one line each, in
    /// ascending order of identifier.
    pub fn render(person_list: &PersonList) -> (text: String)
        requires
            person_list.wf(),
        ensures
            records_registry(text@, person_list@),
    {
        let listing = person_list.iterate();
        let ghost ids = spec_listed_ids(listing@);
        let ghost registry = person_list@;
        let mut text = String::new();
        let mut index: usize = 0;
        proof {
            reveal_strlit(" ");
            reveal_strlit("\n");
            assert(ids.take(0) =~= Seq::<u64>::empty());
        }
        while index < listing.len()
            invariant
                index <= listing.len(),
                ids == spec_listed_ids(listing@),
                " "@ == seq![' '],
                "\n"@ == seq!['\n'],
                forall|i: int|
                    0 <= i < listing.len() ==> ((#[trigger] registry.slots[listing[i].0@])
                        matches Some(person) && listing[i].1@ == person.display()),
                text@ == record_lines(registry, ids.take(index as int)),
            decreases listing.len() - index,
        {
            let ghost before = text@;
            proof {
                assert(ids.take(index + 1).drop_last() =~= ids.take(index as int));
                assert(ids.take(index + 1).last() == listing[index as int].0@);
                assert(registry.slots[listing[index as int].0@] is Some);
            }
            let number = listing[index].0.to_string();
            text.append(number.as_str());
            text.append(" ");
            text.append(listing[index].1.as_str());
            text.append("\n");
            proof {
                assert(text@ =~= before + record_line(
                    listing[index as int].0@,
                    registry.slots[listing[index as int].0@]->0,
                ));
            }
            index = index + 1;
        }
        proof {
            assert(ids.take(index as int) =~= ids);
            assert(registry.lists_live_ids(ids));
        }
        text
    }
}

/// Once a line is refused, the lines are refused with its fault however
/// many follow.
proof fn lemma_refused_for_good(lines: Seq<Seq<char>>, cut: int)
    requires
        0 <= cut <= lines.len(),
        parse_lines(lines.take(cut)) is Err,
    ensures
        parse_lines(lines) == parse_lines(lines.take(cut)),
    decreases lines.len() - cut,
{
    if cut == lines.len() {
        assert(lines.take(cut) =~= lines);
    } else {
        assert(lines.drop_last().take(cut) =~= lines.take(cut));
        lemma_refused_for_good(lines.drop_last(), cut);
    }
}

/// Once a record is refused, nothing more is created however many
/// records follow.
proof fn lemma_stopped_for_good(
    registry: RegistryView<PersonNameView>,
    records: Seq<(u64, PersonNameView)>,
    cut: int,
)
    requires
        0 <= cut <= records.len(),
        add_records(registry, records.take(cut)).1 is Some,
    ensures
        add_records(registry, records) == add_records(registry, records.take(cut)),
    decreases records.len() - cut,
{
    if cut == records.len() {
        assert(records.take(cut) =~= records);
    } else {
        assert(records.drop_last().take(cut) =~= records.take(cut));
        lemma_stopped_for_good(registry, records.drop_last(), cut);
    }
}

/// What the persons `ids` of `registry` are recorded as, in the order of
/// `ids`.
pub open spec fn records_of(registry: RegistryView<PersonNameView>, ids: Seq<u64>) -> Seq<
    (u64, PersonNameView),
> {
    Seq::new(ids.len(), |i: int| (ids[i], registry.slots[ids[i]]->0))
}

/// Each part of `name` is one word.
pub open spec fn is_worded(name: PersonNameView) -> bool {
    &&& is_word(name.last_name)
    &&& name.first_name matches Some(first_name) ==> is_word(first_name)
}

/// The persons `ids` of `registry` are live, and the name of each is
/// made of words and is one that the bounds of a person's name accept.
pub open spec fn recordable(registry: RegistryView<PersonNameView>, ids: Seq<u64>) -> bool {
    forall|i: int|
        0 <= i < ids.len() ==> {
            &&& registry.is_live(#[trigger] ids[i])
            &&& is_worded(registry.slots[ids[i]]->0)
            &&& person_name_fault(registry.slots[ids[i]]->0) is None
        }
}

/// The fields of the line that records a person.
pub open spec fn record_fields(id: u64, name: PersonNameView) -> Seq<Seq<char>> {
    match name.first_name {
        Some(first_name) => seq![decimal(id as nat), name.last_name, first_name],
        None => seq![decimal(id as nat), name.last_name],
    }
}

/// The line of a person whose name is made of words says the person
/// again.
proof fn lemma_line_is_read_back(id: u64, name: PersonNameView)
    requires
        is_worded(name),
        person_name_fault(name) is None,
    ensures
        record_line(id, name) == join_words(record_fields(id, name)) + seq!['\n'],
        is_line(join_words(record_fields(id, name))),
        parse_line(join_words(record_fields(id, name))) == Ok::<(u64, PersonNameView), HrError>(
            (id, name),
        ),
{
    let number = decimal(id as nat);
    let fields = record_fields(id, name);
    law_decimal_is_a_word(id as nat);
    law_decimal_round_trip(id);
    assert(join_words(seq![number]) == number);
    assert(seq![number, name.last_name].drop_last() =~= seq![number]);
    assert(join_words(seq![number, name.last_name]) =~= number + seq![' '] + name.last_name);
    match name.first_name {
        Some(first_name) => {
            assert(fields.drop_last() =~= seq![number, name.last_name]);
            assert(join_words(fields) =~= number + seq![' '] + name.display());
        },
        None => {
            assert(join_words(fields) =~= number + seq![' '] + name.display());
        },
    }
    assert forall|i: int| 0 <= i < fields.len() implies is_word(#[trigger] fields[i]) by {}
    law_joined_words_are_split(fields);
    assert(name_fields(fields) == name);
    let line = join_words(fields);
    let shown = name.display();
    assert forall|i: int| 0 <= i < shown.len() implies #[trigger] shown[i] != '\n' by {
        if i < name.last_name.len() {
            assert(shown[i] == name.last_name[i]);
        } else if i > name.last_name.len() {
            assert(shown[i] == name.first_name->0[i - name.last_name.len() - 1]);
        }
    }
    assert forall|i: int| 0 <= i < line.len() implies #[trigger] line[i] != '\n' by {
        if i < number.len() {
            assert(line[i] == number[i]);
        } else if i > number.len() {
            assert(line[i] == shown[i - number.len() - 1]);
        }
    }
}

/// The lines that were written for `ids`, without their line feeds.
spec fn written_lines(registry: RegistryView<PersonNameView>, ids: Seq<u64>) -> Seq<Seq<char>> {
    Seq::new(ids.len(), |i: int| join_words(record_fields(ids[i], registry.slots[ids[i]]->0)))
}

/// The lines that record persons whose names are made of words say the
/// persons again, in the same order.
pub proof fn law_written_is_read(registry: RegistryView<PersonNameView>, ids: Seq<u64>)
    requires
        recordable(registry, ids),
    ensures
        parse_lines(lines(record_lines(registry, ids))) == Ok::<
            Seq<(u64, PersonNameView)>,
            HrError,
        >(records_of(registry, ids)),
{
    let written = written_lines(registry, ids);
    assert forall|i: int| 0 <= i < written.len() implies is_line(#[trigger] written[i]) by {
        assert(registry.is_live(ids[i]));
        lemma_line_is_read_back(ids[i], registry.slots[ids[i]]->0);
    }
    lemma_lines_are_joined(registry, ids, ids.len() as int);
    assert(ids.take(ids.len() as int) =~= ids);
    assert(written.take(ids.len() as int) =~= written);
    law_joined_lines_are_split(written);
    lemma_lines_are_parsed(registry, ids, ids.len() as int);
    assert(records_of(registry, ids).take(ids.len() as int) =~= records_of(registry, ids));
}

proof fn lemma_lines_are_joined(registry: RegistryView<PersonNameView>, ids: Seq<u64>, cut: int)
    requires
        recordable(registry, ids),
        0 <= cut <= ids.len(),
    ensures
        record_lines(registry, ids.take(cut)) == join_lines(
            written_lines(registry, ids).take(cut),
        ),
    decreases cut,
{
    let written = written_lines(registry, ids);
    if cut > 0 {
        lemma_lines_are_joined(registry, ids, cut - 1);
        assert(ids.take(cut).drop_last() =~= ids.take(cut - 1));
        assert(written.take(cut).drop_last() =~= written.take(cut - 1));
        assert(registry.is_live(ids[cut - 1]));
        lemma_line_is_read_back(ids[cut - 1], registry.slots[ids[cut - 1]]->0);
        assert(join_lines(written.take(cut)) =~= join_lines(written.take(cut - 1)) + (written[cut
            - 1] + seq!['\n']));
    } else {
        assert(ids.take(cut) =~= Seq::<u64>::empty());
        assert(written.take(cut) =~= Seq::<Seq<char>>::empty());
    }
}

proof fn lemma_lines_are_parsed(registry: RegistryView<PersonNameView>, ids: Seq<u64>, cut: int)
    requires
        recordable(registry, ids),
        0 <= cut <= ids.len(),
    ensures
        parse_lines(written_lines(registry, ids).take(cut)) == Ok::<
            Seq<(u64, PersonNameView)>,
            HrError,
        >(records_of(registry, ids).take(cut)),
    decreases cut,
{
    let written = written_lines(registry, ids);
    let records = records_of(registry, ids);
    if cut > 0 {
        lemma_lines_are_parsed(registry, ids, cut - 1);
        assert(written.take(cut).drop_last() =~= written.take(cut - 1));
        assert(registry.is_live(ids[cut - 1]));
        lemma_line_is_read_back(ids[cut - 1], registry.slots[ids[cut - 1]]->0);
        assert(records.take(cut) =~= records.take(cut - 1).push(records[cut - 1]));
    } else {
        assert(written.take(cut) =~= Seq::<Seq<char>>::empty());
        assert(records.take(cut) =~= Seq::<(u64, PersonNameView)>::empty());
    }
}

/// Where the live persons of a registry are created anew in a registry
/// in which nothing was created yet, each under its own identifier, none
/// is refused, and the same persons are live under the same identifiers
/// and names. The retired identifiers are not kept.
pub proof fn law_records_restore_the_live(registry: RegistryView<PersonNameView>, ids: Seq<u64>)
    requires
        registry.wf(),
        registry.lists_live_ids(ids),
    ensures
        add_records(RegistryView::empty(), records_of(registry, ids)).1 is None,
        add_records(RegistryView::empty(), records_of(registry, ids)).0.wf(),
        forall|id: u64|
            #![trigger registry.is_live(id)]
            add_records(RegistryView::empty(), records_of(registry, ids)).0.is_live(id)
                == registry.is_live(id),
        forall|id: u64|
            #![trigger registry.is_live(id)]
            registry.is_live(id) ==> add_records(
                RegistryView::empty(),
                records_of(registry, ids),
            ).0.slots[id] == registry.slots[id],
{
    lemma_records_restore(registry, ids, ids.len() as int);
    let records = records_of(registry, ids);
    assert(records.take(ids.len() as int) =~= records);
    let loaded = add_records(RegistryView::empty(), records).0;
    assert forall|id: u64| #![trigger registry.is_live(id)] loaded.is_live(id) == registry.is_live(
        id,
    ) by {
        if registry.is_live(id) {
            assert(ids.contains(id));
            let j = choose|j: int| 0 <= j < ids.len() && ids[j] == id;
            assert(loaded.is_live(ids[j]));
        }
        if loaded.is_live(id) {
            assert(registry.is_live(id));
        }
    }
    assert forall|id: u64|
        #![trigger registry.is_live(id)]
        registry.is_live(id) implies loaded.slots[id] == registry.slots[id] by {
        assert(loaded.is_live(id));
    }
}

/// `loaded` holds nothing live but what `registry` holds under the same
/// identifier.
spec fn within(
    loaded: RegistryView<PersonNameView>,
    registry: RegistryView<PersonNameView>,
) -> bool {
    forall|id: u64|
        #![trigger loaded.is_live(id)]
        loaded.is_live(id) ==> registry.is_live(id) && loaded.slots[id] == registry.slots[id]
}

proof fn lemma_records_restore(registry: RegistryView<PersonNameView>, ids: Seq<u64>, cut: int)
    requires
        registry.wf(),
        registry.lists_live_ids(ids),
        0 <= cut <= ids.len(),
    ensures
        add_records(RegistryView::empty(), records_of(registry, ids).take(cut)).1 is None,
        add_records(RegistryView::empty(), records_of(registry, ids).take(cut)).0.wf(),
        cut > 0 ==> add_records(
            RegistryView::empty(),
            records_of(registry, ids).take(cut),
        ).0.highest == ids[cut - 1],
        within(add_records(RegistryView::empty(), records_of(registry, ids).take(cut)).0, registry),
        forall|j: int|
            0 <= j < cut ==> add_records(
                RegistryView::empty(),
                records_of(registry, ids).take(cut),
            ).0.is_live(#[trigger] ids[j]),
    decreases cut,
{
    let records = records_of(registry, ids);
    let empty = RegistryView::<PersonNameView>::empty();
    if cut > 0 {
        lemma_records_restore(registry, ids, cut - 1);
        assert(records.take(cut).drop_last() =~= records.take(cut - 1));
        assert(records.take(cut).last() == records[cut - 1]);
        let before = add_records(empty, records.take(cut - 1)).0;
        let after = add_records(empty, records.take(cut)).0;
        let id = ids[cut - 1];
        let name = registry.slots[id]->0;
        assert(registry.is_live(id));
        assert(id != 0);
        assert(!before.slots.contains_key(id)) by {
            if cut > 1 {
                assert(ids[cut - 2] < ids[cut - 1]);
            }
        }
        assert(after == before.create(name, Some(id)));
        assert forall|id: u64|
            #![trigger after.is_live(id)]
            after.is_live(id) implies registry.is_live(id) && after.slots[id]
            == registry.slots[id] by {
            if id != ids[cut - 1] {
                assert(before.is_live(id));
            }
        }
        assert forall|j: int| 0 <= j < cut implies after.is_live(#[trigger] ids[j]) by {
            if j < cut - 1 {
                assert(before.is_live(ids[j]));
            }
        }
    } else {
        assert(records.take(cut) =~= Seq::<(u64, PersonNameView)>::empty());
    }
}

} // verus!
