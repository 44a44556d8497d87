use gpx_split::names::{base_name, output_file_name, OutputFile};
use gpx_split::plan::{WriteOutcome, WriteStep};

#[test]
fn the_base_name_ends_at_the_first_dot() {
    assert_eq!(base_name("ride.gpx"), "ride");
    assert_eq!(base_name("my.ride.gpx"), "my");
    assert_eq!(base_name("ride"), "ride");
    assert_eq!(base_name("ride."), "ride");
    assert_eq!(base_name(".gpx"), "");
    assert_eq!(base_name(""), "");
    assert_eq!(base_name("tour d'été.gpx"), "tour d'été");
}

#[test]
fn the_files_are_named_after_the_base_name() {
    assert_eq!(output_file_name("ride", OutputFile::Waypoints), "ride_wpt.gpx");
    assert_eq!(output_file_name("ride", OutputFile::Routes), "ride_rte.gpx");
    assert_eq!(output_file_name("ride", OutputFile::Tracks), "ride_trk.gpx");
    assert_eq!(output_file_name("ride", OutputFile::Tokens), "ride_tokens.txt");
    assert_eq!(output_file_name("", OutputFile::Tokens), "_tokens.txt");
    assert_eq!(output_file_name("été", OutputFile::Routes), "été_rte.gpx");
}

#[test]
fn the_dump_is_written_first() {
    assert_eq!(WriteStep::first(), WriteStep::WriteDump);
    assert_eq!(WriteStep::WriteDump.next(WriteOutcome::DumpWritten), WriteStep::LookForDocuments);
}

#[test]
fn documents_that_do_not_exist_are_written_without_asking() {
    let found = WriteOutcome::DocumentsFound { waypoints: false, routes: false, tracks: false };
    assert_eq!(WriteStep::LookForDocuments.next(found), WriteStep::WriteDocuments);
    assert_eq!(
        WriteStep::WriteDocuments.next(WriteOutcome::DocumentsWritten),
        WriteStep::Finished { written: true }
    );
}

#[test]
fn any_document_that_exists_makes_the_conversion_ask() {
    for (waypoints, routes, tracks) in [
        (true, false, false),
        (false, true, false),
        (false, false, true),
        (true, true, false),
        (true, true, true),
    ] {
        let found = WriteOutcome::DocumentsFound { waypoints, routes, tracks };
        assert_eq!(WriteStep::LookForDocuments.next(found), WriteStep::AskToOverwrite);
    }
}

#[test]
fn the_answer_decides() {
    assert_eq!(
        WriteStep::AskToOverwrite.next(WriteOutcome::Answered { overwrite: true }),
        WriteStep::WriteDocuments
    );
    assert_eq!(
        WriteStep::AskToOverwrite.next(WriteOutcome::Answered { overwrite: false }),
        WriteStep::Finished { written: false }
    );
}

#[test]
fn an_outcome_of_another_step_changes_nothing() {
    let found = WriteOutcome::DocumentsFound { waypoints: false, routes: false, tracks: false };
    assert_eq!(WriteStep::WriteDump.next(found), WriteStep::WriteDump);
    assert_eq!(
        WriteStep::WriteDump.next(WriteOutcome::Answered { overwrite: true }),
        WriteStep::WriteDump
    );
    assert_eq!(
        WriteStep::LookForDocuments.next(WriteOutcome::DocumentsWritten),
        WriteStep::LookForDocuments
    );
    assert_eq!(
        WriteStep::AskToOverwrite.next(WriteOutcome::DumpWritten),
        WriteStep::AskToOverwrite
    );
    assert_eq!(
        WriteStep::Finished { written: false }.next(WriteOutcome::DocumentsWritten),
        WriteStep::Finished { written: false }
    );
    assert_eq!(
        WriteStep::Finished { written: true }.next(WriteOutcome::Answered { overwrite: false }),
        WriteStep::Finished { written: true }
    );
}
