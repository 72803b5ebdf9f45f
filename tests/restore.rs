use backrest::restore::{RestoreRun, RestoreStage};

#[test]
fn wrong_passphrase_fails_only_that_archive() {
    let mut run = RestoreRun::new(2);
    let mut unpacked = Vec::new();
    while let Some((i, stage)) = run.current() {
        let ok = !(i == 0 && stage == RestoreStage::Decrypt);
        if stage == RestoreStage::Unpack {
            unpacked.push(i);
        }
        run.record(ok);
    }
    assert_eq!(unpacked, vec![1]);
    assert_eq!(run.failed(), vec![0]);
    assert_eq!(run.restored(), vec![1]);
}

#[test]
fn stages_come_in_order() {
    let mut run = RestoreRun::new(1);
    let mut seen = Vec::new();
    while let Some((_, stage)) = run.current() {
        seen.push(stage);
        run.record(true);
    }
    assert_eq!(
        seen,
        vec![
            RestoreStage::Open,
            RestoreStage::Probe,
            RestoreStage::PrepareDir,
            RestoreStage::Decrypt,
            RestoreStage::Unpack
        ]
    );
    assert_eq!(run.restored(), vec![0]);
    assert!(run.failed().is_empty());
}

#[test]
fn every_archive_gets_its_turn_when_all_fail() {
    let mut run = RestoreRun::new(3);
    let mut steps = 0;
    while run.current().is_some() {
        run.record(false);
        steps += 1;
    }
    assert_eq!(steps, 3);
    assert_eq!(run.failed(), vec![0, 1, 2]);
    assert!(run.restored().is_empty());
}

#[test]
fn empty_restore_run_is_done() {
    let mut run = RestoreRun::new(0);
    assert!(run.current().is_none());
    run.record(true);
    assert!(run.current().is_none());
    assert!(run.failed().is_empty());
}
