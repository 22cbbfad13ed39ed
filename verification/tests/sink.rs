use influxdb_line_protocol::{to_writer, Error, FieldValue, Sink};

/// Accepts characters until its room is used up, then reports a fault.
struct Bounded {
    held: String,
    room: usize,
}

impl Sink for Bounded {
    fn write_str(&mut self, s: &str) -> Result<(), std::fmt::Error> {
        for c in s.chars() {
            self.write_char(c)?;
        }
        Ok(())
    }

    fn write_char(&mut self, c: char) -> Result<(), std::fmt::Error> {
        if self.room == 0 {
            return Err(std::fmt::Error);
        }
        self.room -= 1;
        self.held.push(c);
        Ok(())
    }
}

#[test]
fn sink_with_room_takes_the_line() {
    let mut sink = Bounded { held: String::new(), room: 100 };
    let r = to_writer(
        &mut sink,
        "m",
        &[("k", "v")],
        &[("f", FieldValue::Integer(1))],
        Some(2),
    );
    assert!(r.is_ok());
    assert_eq!(sink.held, "m,k=v f=1i 2\n");
}

#[test]
fn sink_fault_ends_the_call() {
    let line = "m,k\\ 1=v f=\"a\\\"b\",g=-12i 2\n";
    for room in 0..line.chars().count() {
        let mut sink = Bounded { held: String::new(), room };
        let r = to_writer(
            &mut sink,
            "m",
            &[("k 1", "v")],
            &[("f", FieldValue::String("a\"b")), ("g", FieldValue::Integer(-12))],
            Some(2),
        );
        assert!(matches!(r, Err(Error::Fmt(_))));
        assert!(line.starts_with(&sink.held));
        assert_eq!(sink.held.chars().count(), room);
    }
}

#[test]
fn rule_comes_before_a_later_fault() {
    let mut sink = Bounded { held: String::new(), room: 1 };
    let r = to_writer(&mut sink, "_m", &[], &[("f", FieldValue::Integer(1))], None);
    assert!(matches!(r, Err(Error::NamingRestrictions)));
    assert_eq!(sink.held, "");
}
