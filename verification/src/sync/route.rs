//! What the routing tool said: was a route added or removed, and which
//! routes are in the table.
use crate::sync::address::{
    contains, insert_unique, ordered_set, parse_v4, rank, ranks, v4_value, Address,
};
use crate::text::{before_first, before_first_spec, lines, lines_spec, views};
use vstd::prelude::*;

verus! {

/// What the tool printed when it failed in a way that is not known.
#[derive(Debug, Clone, PartialEq, Eq)]
pub struct CommandFailure {
    /// What was being done.
    pub text: String,
    /// What the tool wrote to its output.
    pub stdout: String,
    /// What the tool wrote to its error output.
    pub stderr: String,
    /// The address that the tool was called for.
    pub address: Address,
}

/// Why a route was not added or removed.
#[derive(Debug, Clone, PartialEq, Eq)]
pub enum Error {
    /// The tool could not be started.
    Start(String),
    /// The tool ran into an error.
    Run(CommandFailure),
    /// The table could not be read to see whether the change was made.
    Verifying(String),
    /// The tool said nothing, and the route is still as it was.
    NoEffect,
    /// The route is there already.
    Exists,
    /// There is no such route.
    NotFound,
}

/// What the tool writes when the route is there already.
pub open spec fn exists_message() -> Seq<char> {
    "route: SIOCADDRT: File exists\n"@
}

/// What the tool writes when there is no such route.
pub open spec fn not_found_message() -> Seq<char> {
    "route: SIOCDELRT: No such process\n"@
}

/// What a run of the tool amounts to.
pub ghost enum Outcome {
    /// The tool did as it was told.
    Done,
    /// The route is there already.
    Exists,
    /// There is no such route.
    NotFound,
    /// The tool failed in another way.
    Failed,
}

/// What a run of the tool amounts to, given whether it ended well and what
/// it wrote to its error output.
pub open spec fn outcome(success: bool, stderr: Seq<char>) -> Outcome {
    if success {
        Outcome::Done
    } else if stderr == exists_message() {
        Outcome::Exists
    } else if stderr == not_found_message() {
        Outcome::NotFound
    } else {
        Outcome::Failed
    }
}

/// Turns a run of the tool into a result. A run that ended well is a
/// success whatever it wrote. The two failures that are known by what the
/// tool writes get errors of their own; any other failure is handed on with
/// all that the tool wrote.
pub fn handle_any_error(
    success: bool,
    stdout: &str,
    stderr: &str,
    address: &Address,
    text: &str,
) -> (r: Result<(), Error>)
    ensures
        match outcome(success, stderr@) {
            Outcome::Done => r is Ok,
            Outcome::Exists => r == Err::<(), Error>(Error::Exists),
            Outcome::NotFound => r == Err::<(), Error>(Error::NotFound),
            Outcome::Failed => r matches Err(Error::Run(failure)) && failure.text@ == text@
                && failure.stdout@ == stdout@ && failure.stderr@ == stderr@ && failure.address
                == *address,
        },
{
    if success {
        return Ok(());
    }
    let said = stderr.to_owned();
    if said == "route: SIOCADDRT: File exists\n".to_owned() {
        return Err(Error::Exists);
    }
    if said == "route: SIOCDELRT: No such process\n".to_owned() {
        return Err(Error::NotFound);
    }
    Err(
        Error::Run(
            CommandFailure {
                text: text.to_owned(),
                stdout: stdout.to_owned(),
                stderr: said,
                address: *address,
            },
        ),
    )
}

/// What the tool said of adding the route to `address`.
pub fn block(address: &Address, success: bool, stdout: &str, stderr: &str) -> (r: Result<
    (),
    Error,
>)
    ensures
        match outcome(success, stderr@) {
            Outcome::Done => r is Ok,
            Outcome::Exists => r == Err::<(), Error>(Error::Exists),
            Outcome::NotFound => r == Err::<(), Error>(Error::NotFound),
            Outcome::Failed => r matches Err(Error::Run(failure)) && failure.text@
                == "Command route add returned an error"@ && failure.stdout@ == stdout@
                && failure.stderr@ == stderr@ && failure.address == *address,
        },
{
    handle_any_error(success, stdout, stderr, address, "Command route add returned an error")
}

/// What the tool said of removing the route to `address`. Whether the route
/// is gone is for `verify` to say.
pub fn unblock(address: &Address, success: bool, stdout: &str, stderr: &str) -> (r: Result<
    (),
    Error,
>)
    ensures
        match outcome(success, stderr@) {
            Outcome::Done => r is Ok,
            Outcome::Exists => r == Err::<(), Error>(Error::Exists),
            Outcome::NotFound => r == Err::<(), Error>(Error::NotFound),
            Outcome::Failed => r matches Err(Error::Run(failure)) && failure.text@
                == "Command route delete returned an error"@ && failure.stdout@ == stdout@
                && failure.stderr@ == stderr@ && failure.address == *address,
        },
{
    handle_any_error(success, stdout, stderr, address, "Command route delete returned an error")
}

/// Why a table could not be read.
#[derive(Debug, Clone, PartialEq, Eq)]
pub enum TableError {
    /// A line of the table has no blank, and so no first column.
    NoColumns(String),
    /// The first column of a line is not an address.
    NotAnAddress(String),
}

/// Why a table could not be read.
pub ghost enum TableFault {
    /// The line has no blank.
    NoColumns(Seq<char>),
    /// The column is not an address.
    NotAnAddress(Seq<char>),
}

/// What a reading error says.
pub open spec fn fault_of(error: TableError) -> TableFault {
    match error {
        TableError::NoColumns(line) => TableFault::NoColumns(line@),
        TableError::NotAnAddress(column) => TableFault::NotAnAddress(column@),
    }
}

/// The address in the first column of a line of the table.
pub open spec fn destination(line: Seq<char>) -> Result<nat, TableFault> {
    match before_first_spec(line, ' ') {
        None => Err(TableFault::NoColumns(line)),
        Some(column) => match v4_value(column) {
            Some(bits) => Ok(rank(false, bits)),
            None => Err(TableFault::NotAnAddress(column)),
        },
    }
}

/// The addresses in the first column of `lines`, up to the first line that
/// cannot be read.
pub open spec fn destinations(lines: Seq<Seq<char>>) -> Result<Seq<nat>, TableFault>
    decreases lines.len(),
{
    if lines.len() == 0 {
        Ok(Seq::empty())
    } else {
        match destinations(lines.drop_last()) {
            Err(fault) => Err(fault),
            Ok(list) => match destination(lines.last()) {
                Err(fault) => Err(fault),
                Ok(address) => Ok(list.push(address)),
            },
        }
    }
}

/// The lines of a table behind its two lines of headings.
pub open spec fn rows_of(lines: Seq<Seq<char>>) -> Seq<Seq<char>> {
    if lines.len() <= 2 {
        Seq::empty()
    } else {
        lines.skip(2)
    }
}

/// The routes that a table shows: the addresses in the first column of every
/// line behind the two lines of headings, in rising order and each once.
pub open spec fn table_spec(output: Seq<char>) -> Result<Seq<nat>, TableFault> {
    match destinations(rows_of(lines_spec(output))) {
        Ok(list) => Ok(ordered_set(list)),
        Err(fault) => Err(fault),
    }
}

/// Once the lines up to some line cannot be read, the whole cannot, for the
/// same reason.
proof fn lemma_destinations_stuck(lines: Seq<Seq<char>>, k: int)
    requires
        0 <= k <= lines.len(),
        destinations(lines.take(k)) is Err,
    ensures
        destinations(lines) == destinations(lines.take(k)),
    decreases lines.len() - k,
{
    if k < lines.len() {
        assert(lines.take(k + 1).drop_last() == lines.take(k));
        lemma_destinations_stuck(lines, k + 1);
    } else {
        assert(lines.take(k) == lines);
    }
}

/// Reads the table that the tool printed: which addresses have a route. The
/// tool prints the table of the old protocol, so that is what is read.
pub fn table(output: &str) -> (r: Result<Vec<Address>, TableError>)
    ensures
        match r {
            Ok(routes) => table_spec(output@) == Ok::<Seq<nat>, TableFault>(ranks(routes@)),
            Err(error) => table_spec(output@) == Err::<Seq<nat>, TableFault>(fault_of(error)),
        },
{
    let all = lines(output);
    let ghost rows = rows_of(views(all@));
    let mut routes: Vec<Address> = Vec::new();
    let ghost mut found: Seq<nat> = Seq::empty();
    let mut i: usize = 2;
    if all.len() <= 2 {
        assert(ranks(routes@) =~= ordered_set(Seq::<nat>::empty()));
        return Ok(routes);
    }
    assert(rows.take(0) == Seq::<Seq<char>>::empty());
    assert(ranks(routes@) =~= ordered_set(found));
    while i < all.len()
        invariant
            2 <= i <= all.len(),
            rows == views(all@).skip(2),
            rows == rows_of(lines_spec(output@)),
            destinations(rows.take(i - 2)) == Ok::<Seq<nat>, TableFault>(found),
            ranks(routes@) == ordered_set(found),
        decreases all.len() - i,
    {
        proof {
            assert(rows.take(i - 2 + 1).drop_last() == rows.take(i - 2));
            assert(rows.take(i - 2 + 1).last() == all[i as int]@);
        }
        let column = match before_first(all[i].as_str(), ' ') {
            Some(column) => column,
            None => {
                proof {
                    assert(destination(all[i as int]@) == Err::<nat, TableFault>(
                        TableFault::NoColumns(all[i as int]@),
                    ));
                    assert(destinations(rows.take(i - 2 + 1)) is Err);
                    lemma_destinations_stuck(rows, i - 2 + 1);
                }
                return Err(TableError::NoColumns(all[i].clone()));
            },
        };
        match parse_v4(column.as_str()) {
            Some(address) => {
                proof {
                    assert(found.push(address@).drop_last() == found);
                    found = found.push(address@);
                }
                insert_unique(&mut routes, address);
            },
            None => {
                proof {
                    assert(destination(all[i as int]@) == Err::<nat, TableFault>(
                        TableFault::NotAnAddress(column@),
                    ));
                    assert(destinations(rows.take(i - 2 + 1)) is Err);
                    lemma_destinations_stuck(rows, i - 2 + 1);
                }
                return Err(TableError::NotAnAddress(column));
            },
        }
        i += 1;
    }
    assert(rows.take(i - 2) == rows);
    Ok(routes)
}

/// The line or column over which reading a table stumbled.
pub open spec fn fault_text(fault: TableFault) -> Seq<char> {
    match fault {
        TableFault::NoColumns(line) => line,
        TableFault::NotAnAddress(column) => column,
    }
}

/// Whether the route to `address` is gone after the tool was told to remove
/// it: `table` is what came of reading the table afterwards. A table that
/// could not be read leaves the question open, which is an error that names
/// what the reading stumbled over.
pub fn verify(address: &Address, table: Result<Vec<Address>, TableError>) -> (r: Result<(), Error>)
    ensures
        match table {
            Ok(routes) => if ranks(routes@).contains(address@) {
                r == Err::<(), Error>(Error::NoEffect)
            } else {
                r is Ok
            },
            Err(error) => r matches Err(Error::Verifying(text)) && text@ == fault_text(
                fault_of(error),
            ),
        },
{
    match table {
        Ok(routes) => {
            if contains(&routes, address) {
                Err(Error::NoEffect)
            } else {
                Ok(())
            }
        },
        Err(TableError::NoColumns(line)) => Err(Error::Verifying(line)),
        Err(TableError::NotAnAddress(column)) => Err(Error::Verifying(column)),
    }
}

} // verus!
