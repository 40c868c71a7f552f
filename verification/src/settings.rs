//! Configuration data for the record parser: which field names carry the
//! timestamp, level, message, logger and caller, and which keys are ignored.

use vstd::prelude::*;

verus! {

use crate::model::Level;

/// A list of field names recognized for one semantic slot.
#[derive(Debug, Clone)]
pub struct Field {
    pub names: Vec<String>,
}

#[derive(Debug, Clone)]
pub struct TimeField(pub Field);

/// One way a level can be spelled: the field names that may carry it and the
/// accepted spellings per level.
#[derive(Debug, Clone)]
pub struct LevelFieldVariant {
    pub names: Vec<String>,
    pub values: Vec<(Level, Vec<String>)>,
}

#[derive(Debug, Clone)]
pub struct LevelField {
    pub variants: Vec<LevelFieldVariant>,
}

#[derive(Debug, Clone)]
pub struct MessageField(pub Field);

#[derive(Debug, Clone)]
pub struct LoggerField(pub Field);

#[derive(Debug, Clone)]
pub struct CallerField(pub Field);

/// All predefined field settings.
#[derive(Debug, Clone)]
pub struct PredefinedFields {
    pub time: TimeField,
    pub level: LevelField,
    pub message: MessageField,
    pub logger: LoggerField,
    pub caller: CallerField,
}

/// Field settings: the predefined slots plus keys to ignore or hide.
#[derive(Debug, Clone)]
pub struct Fields {
    pub predefined: PredefinedFields,
    pub ignore: Vec<String>,
    pub hide: Vec<String>,
}

fn name1(a: &str) -> (r: Vec<String>)
    ensures
        r@.len() == 1,
        r@[0]@ == a@,
{
    let mut r: Vec<String> = Vec::new();
    r.push(a.to_owned());
    r
}

fn name2(a: &str, b: &str) -> (r: Vec<String>)
    ensures
        r@.len() == 2,
        r@[0]@ == a@,
        r@[1]@ == b@,
{
    let mut r: Vec<String> = Vec::new();
    r.push(a.to_owned());
    r.push(b.to_owned());
    r
}

impl Default for Fields {
    /// The stock configuration: `ts`/`time` carry the timestamp, `level`
    /// carries the level with the usual spellings, `msg`/`message` the
    /// message, `logger` the logger and `caller` the caller; nothing is
    /// ignored or hidden.
    fn default() -> (r: Self)
        ensures
            r.predefined.time.0.names@.len() == 2,
            r.predefined.time.0.names@[0]@ == "ts"@,
            r.predefined.time.0.names@[1]@ == "time"@,
            r.predefined.level.variants@.len() == 1,
            r.predefined.level.variants@[0].names@.len() == 1,
            r.predefined.level.variants@[0].names@[0]@ == "level"@,
            r.predefined.level.variants@[0].values@.len() == 4,
            r.predefined.level.variants@[0].values@[0].0 == Level::Debug,
            r.predefined.level.variants@[0].values@[0].1@.len() == 1,
            r.predefined.level.variants@[0].values@[0].1@[0]@ == "debug"@,
            r.predefined.level.variants@[0].values@[1].0 == Level::Info,
            r.predefined.level.variants@[0].values@[1].1@.len() == 1,
            r.predefined.level.variants@[0].values@[1].1@[0]@ == "info"@,
            r.predefined.level.variants@[0].values@[2].0 == Level::Warning,
            r.predefined.level.variants@[0].values@[2].1@.len() == 2,
            r.predefined.level.variants@[0].values@[2].1@[0]@ == "warning"@,
            r.predefined.level.variants@[0].values@[2].1@[1]@ == "warn"@,
            r.predefined.level.variants@[0].values@[3].0 == Level::Error,
            r.predefined.level.variants@[0].values@[3].1@.len() == 2,
            r.predefined.level.variants@[0].values@[3].1@[0]@ == "error"@,
            r.predefined.level.variants@[0].values@[3].1@[1]@ == "err"@,
            r.predefined.message.0.names@.len() == 2,
            r.predefined.message.0.names@[0]@ == "msg"@,
            r.predefined.message.0.names@[1]@ == "message"@,
            r.predefined.logger.0.names@.len() == 1,
            r.predefined.logger.0.names@[0]@ == "logger"@,
            r.predefined.caller.0.names@.len() == 1,
            r.predefined.caller.0.names@[0]@ == "caller"@,
            r.ignore@.len() == 0,
            r.hide@.len() == 0,
    {
        let mut values: Vec<(Level, Vec<String>)> = Vec::new();
        values.push((Level::Debug, name1("debug")));
        values.push((Level::Info, name1("info")));
        values.push((Level::Warning, name2("warning", "warn")));
        values.push((Level::Error, name2("error", "err")));
        let mut variants: Vec<LevelFieldVariant> = Vec::new();
        variants.push(LevelFieldVariant { names: name1("level"), values });
        Fields {
            predefined: PredefinedFields {
                time: TimeField(Field { names: name2("ts", "time") }),
                level: LevelField { variants },
                message: MessageField(Field { names: name2("msg", "message") }),
                logger: LoggerField(Field { names: name1("logger") }),
                caller: CallerField(Field { names: name1("caller") }),
            },
            ignore: Vec::new(),
            hide: Vec::new(),
        }
    }
}

} // verus!
