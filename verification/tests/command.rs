//! The command line.

use thor::command::{
    dmesg_request, dump_request, erase_request, flash_request, parse_command_line, parse_finish,
    parse_options, parse_reboot, pit_request, plan_request, region_request, required_word,
    reset_request, shell_erase_request, shell_region_request, upload_request, Command, Finish,
    FlashRequest, Syntax,
};

fn words(line: &str) -> Vec<String> {
    line.split(' ').filter(|w| !w.is_empty()).map(|w| w.to_string()).collect()
}

#[test]
fn commands_are_found_by_name() {
    let c = parse_command_line(&words("thor flash --execute boot.img"));
    assert_eq!((c.debug, c.command), (false, Command::Flash));
    assert_eq!(c.rest, ["--execute", "boot.img"]);
    let names = [
        ("list", Command::List),
        ("dump-pit", Command::DumpPit),
        ("print-pit", Command::PrintPit),
        ("tar-list", Command::TarList),
        ("flash-plan", Command::FlashPlan),
        ("factory-reset", Command::FactoryReset),
        ("erase", Command::Erase),
        ("set-region", Command::SetRegion),
        ("flash-pit", Command::FlashPit),
        ("upload-probe", Command::UploadProbe),
        ("upload-dump", Command::UploadDump),
        ("upload-dmesg", Command::UploadDmesg),
        ("upload-reboot", Command::UploadReboot),
        ("dmesg-carve", Command::DmesgCarve),
        ("reboot", Command::Reboot),
        ("end", Command::End),
        ("shell", Command::Shell),
        ("fly", Command::Usage),
    ];
    for (name, command) in names {
        assert_eq!(parse_command_line(&words(&format!("thor {name}"))).command, command);
    }
}

#[test]
fn debug_may_stand_anywhere() {
    let c = parse_command_line(&words("thor --debug erase --debug BOOT"));
    assert!(c.debug);
    assert_eq!(c.command, Command::Erase);
    assert_eq!(c.rest, ["BOOT"]);
    assert_eq!(parse_command_line(&words("thor --debug")).command, Command::Usage);
    assert_eq!(parse_command_line(&Vec::new()).command, Command::Usage);
}

#[test]
fn finishes_are_read_from_flags_and_modes() {
    assert_eq!(parse_finish(None), Ok(Finish::Leave));
    assert_eq!(parse_finish(Some("--reboot")), Ok(Finish::RebootNormal));
    assert_eq!(parse_finish(Some("--reboot-download")), Ok(Finish::RebootDownload));
    assert_eq!(parse_finish(Some("--shutdown")), Ok(Finish::Shutdown));
    assert_eq!(
        parse_finish(Some("-x")).unwrap_err(),
        "unknown option '-x' (use --reboot | --reboot-download | --shutdown)"
    );
    assert_eq!(parse_reboot(None), Ok(Finish::RebootNormal));
    assert_eq!(parse_reboot(Some("normal")), Ok(Finish::RebootNormal));
    assert_eq!(parse_reboot(Some("download")), Ok(Finish::RebootDownload));
    assert_eq!(
        parse_reboot(Some("up")).unwrap_err(),
        "unknown reboot mode 'up' (use normal | download)"
    );
}

#[test]
fn options_that_a_command_does_not_know_are_arguments() {
    let all = Syntax { pit: true, size: true, execute: true, tflash: true };
    let o = parse_options(
        &words("a --pit p1 --pit p2 --size -7 -y --tflash --reboot --shutdown --execute b"),
        all,
    )
    .unwrap();
    assert_eq!(o.pit_file.as_deref(), Some("p2"));
    assert_eq!(o.size, Some(-7));
    assert!(o.execute && o.assume_yes && o.tflash);
    assert_eq!(o.finish.as_deref(), Some("--shutdown"));
    assert_eq!(o.positional, ["a", "b"]);

    let none = Syntax { pit: false, size: false, execute: false, tflash: false };
    let line = words("--pit p --size 7 --execute --yes --reboot --tflash");
    assert_eq!(parse_options(&line, none).unwrap().positional, line);
    assert_eq!(parse_options(&words("x --pit"), all).err().unwrap(), "--pit needs a file path");
    assert_eq!(parse_options(&words("--size"), all).err().unwrap(), "--size needs a byte count");
    assert_eq!(
        parse_options(&words("--size 1k"), all).err().unwrap(),
        "invalid --size (want a byte count)"
    );
}

#[test]
fn a_table_dump_names_its_file() {
    let q = dump_request(&words("out.pit --reboot")).unwrap();
    assert_eq!((q.path.as_str(), q.finish), ("out.pit", Finish::RebootNormal));
    assert!(dump_request(&words("out.pit --now")).err().unwrap().starts_with("unknown option '--now'"));
    assert!(dump_request(&Vec::new()).err().unwrap().starts_with("usage: thor dump-pit"));
    assert_eq!(required_word(&words("a b"), "usage"), Ok("a".to_string()));
    assert_eq!(required_word(&Vec::new(), "usage"), Err("usage".to_string()));
}

#[test]
fn a_flash_is_a_dry_run_by_default() {
    match flash_request(&words("--pit t.pit boot.img BOOT --reboot")).unwrap() {
        FlashRequest::DryRun { plan, finish_ignored } => {
            assert_eq!(plan.file, "boot.img");
            assert_eq!(plan.partition.as_deref(), Some("BOOT"));
            assert_eq!(plan.pit_file.as_deref(), Some("t.pit"));
            assert!(finish_ignored);
        }
        FlashRequest::Live { .. } => panic!("expected a dry run"),
    }
    let plan = plan_request(&words("--pit t.pit boot.img BOOT")).unwrap();
    match flash_request(&words("--pit t.pit boot.img BOOT")).unwrap() {
        FlashRequest::DryRun { plan: same, finish_ignored } => {
            assert_eq!((same.file, same.partition, same.pit_file), (plan.file, plan.partition, plan.pit_file));
            assert!(!finish_ignored);
        }
        FlashRequest::Live { .. } => panic!("expected a dry run"),
    }
    assert!(plan_request(&Vec::new()).err().unwrap().starts_with("usage: thor flash-plan"));
    assert!(flash_request(&words("--execute")).err().unwrap().starts_with("usage: thor flash "));
}

#[test]
fn a_live_flash_has_to_be_asked_for() {
    match flash_request(&words("--execute -y --tflash --shutdown boot.img")).unwrap() {
        FlashRequest::Live { file, partition, finish, assume_yes, tflash } => {
            assert_eq!(file, "boot.img");
            assert_eq!(partition, None);
            assert_eq!(finish, Finish::Shutdown);
            assert!(assume_yes && tflash);
        }
        FlashRequest::DryRun { .. } => panic!("expected a live flash"),
    }
    assert!(flash_request(&words("--execute --pit t boot.img"))
        .err()
        .unwrap()
        .starts_with("--pit can't be combined"));
}

#[test]
fn nothing_destructive_happens_without_execute() {
    assert_eq!(
        erase_request(&words("CACHE --size 4096 --yes")).err().unwrap(),
        "erase would zero-fill CACHE with 4096 bytes — re-run with --execute to do it"
    );
    assert!(reset_request(&words("--yes")).is_err());
    assert_eq!(
        region_request(&words("xaa")).err().unwrap(),
        "would set region to XAA — re-run with --execute to do it"
    );
    assert!(pit_request(&words("x.pit -y")).is_err());
}

#[test]
fn destructive_requests_are_read() {
    let q = erase_request(&words("CACHE --size 4096 --execute --reboot")).unwrap();
    assert_eq!((q.partition.as_str(), q.size), ("CACHE", 4096));
    assert_eq!((q.consent.assume_yes, q.consent.finish), (false, Finish::RebootNormal));
    let c = reset_request(&words("--execute --yes")).unwrap();
    assert_eq!((c.assume_yes, c.finish), (true, Finish::Leave));
    let q = region_request(&words("--execute xaA")).unwrap();
    assert_eq!(q.subject, "XAA");
    let q = pit_request(&words("my.pit --execute")).unwrap();
    assert_eq!(q.subject, "my.pit");
}

#[test]
fn erasing_needs_a_positive_size() {
    assert!(erase_request(&words("--execute")).err().unwrap().starts_with("usage: thor erase"));
    assert!(erase_request(&words("CACHE --execute")).err().unwrap().starts_with("erase needs --size"));
    for size in ["0", "-5"] {
        assert_eq!(
            erase_request(&words(&format!("CACHE --execute --size {size}"))).err().unwrap(),
            "--size must be positive"
        );
    }
    assert_eq!(shell_erase_request(&words("CACHE --size 7 extra")), Ok(("CACHE".to_string(), 7)));
    assert_eq!(
        shell_erase_request(&words("--size 7")).unwrap_err(),
        "usage: erase <partition> --size <bytes>"
    );
}

#[test]
fn region_codes_have_three_bytes() {
    let want = "a region code is exactly 3 characters (e.g. XAA)";
    for code in ["XA", "XAAA", "éé"] {
        assert_eq!(region_request(&words(&format!("{code} --execute"))).err().unwrap(), want);
        assert_eq!(shell_region_request(&words(code)).unwrap_err(), want);
    }
    assert_eq!(shell_region_request(&words("xéé")).unwrap_err(), want);
    assert_eq!(shell_region_request(&words("xé")), Ok("Xé".to_string()));
    assert_eq!(shell_region_request(&Vec::new()).unwrap_err(), "usage: set-region <XAA>");
    assert!(region_request(&Vec::new()).err().unwrap().starts_with("usage: thor set-region"));
    assert!(pit_request(&Vec::new()).err().unwrap().starts_with("usage: thor flash-pit"));
}

#[test]
fn memory_ranges_are_read_in_hex() {
    assert_eq!(dmesg_request(&words("0x85200000 85400000")), Ok((0x8520_0000, 0x8540_0000)));
    assert_eq!(
        dmesg_request(&words("10 10")).unwrap_err(),
        "end address must be greater than start"
    );
    assert!(dmesg_request(&words("10")).unwrap_err().starts_with("usage: thor upload-dmesg"));
    assert_eq!(dmesg_request(&words("q 10")).unwrap_err(), "invalid hex address 'q'");
    let q = upload_request(&words("0 ff out.bin")).unwrap();
    assert_eq!((q.start, q.end, q.out.as_str()), (0, 255, "out.bin"));
    assert!(upload_request(&words("0 ff")).err().unwrap().starts_with("usage: thor upload-dump"));
    assert!(upload_request(&words("ff 0 out.bin")).is_err());
}
