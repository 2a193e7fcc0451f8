//! Decisions taken when the database is set up.
use vstd::prelude::*;

use crate::util::{contains_str, contains_text, same_text};

verus! {

/// Whether the sample entities are added to a new database: only in the
/// `dev` and `test` environments, and only for a database held in memory.
pub fn should_add_test_data(environment: &str, database_url: &str) -> (add: bool)
    ensures
        add == ((environment@ == "dev"@ || environment@ == "test"@) && contains_text(
            database_url@,
            ":memory:"@,
        )),
{
    let known = same_text(environment, "dev") || same_text(environment, "test");
    known && contains_str(database_url, ":memory:")
}

} // verus!
