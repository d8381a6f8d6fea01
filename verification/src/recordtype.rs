//! The provider's record types: which types each subscription carries,
//! and their names.

use vstd::prelude::*;

verus! {

pub struct RecordTypeFilter;

/// The record types a subscription is expected to carry, or nothing when
/// any type passes.
pub open spec fn spec_allowed_recordtypes(subscription: Seq<char>) -> Option<Seq<int>> {
    if subscription == "DLP.All"@ {
        Some(seq![11int, 13, 28])
    } else if subscription == "Audit.Exchange"@ {
        Some(seq![1int, 2, 3, 20, 50])
    } else if subscription == "Audit.SharePoint"@ {
        Some(seq![4int, 6, 14, 19])
    } else if subscription == "Audit.AzureActiveDirectory"@ {
        Some(seq![8int, 15])
    } else if subscription == "Audit.General"@ {
        Some(seq![25int, 30, 32, 40, 44, 62, 63, 64, 65, 70])
    } else {
        None
    }
}

impl RecordTypeFilter {
    /// The record types allowed for `subscription`; an unknown
    /// subscription allows every type.
    pub fn get_allowed_recordtypes(subscription: &str) -> (r: Option<Vec<i32>>)
        ensures
            match r {
                Some(v) => spec_allowed_recordtypes(subscription@) == Some(
                    v@.map_values(|t: i32| t as int),
                ),
                None => spec_allowed_recordtypes(subscription@) is None,
            },
    {
        if crate::config::str_eq(subscription, "DLP.All") {
            let mut v: Vec<i32> = Vec::new();
            v.push(11);
            v.push(13);
            v.push(28);
            proof {
                assert(v@.map_values(|t: i32| t as int) =~= seq![11int, 13, 28]);
            }
            Some(v)
        } else if crate::config::str_eq(subscription, "Audit.Exchange") {
            let mut v: Vec<i32> = Vec::new();
            v.push(1);
            v.push(2);
            v.push(3);
            v.push(20);
            v.push(50);
            proof {
                assert(v@.map_values(|t: i32| t as int) =~= seq![1int, 2, 3, 20, 50]);
            }
            Some(v)
        } else if crate::config::str_eq(subscription, "Audit.SharePoint") {
            let mut v: Vec<i32> = Vec::new();
            v.push(4);
            v.push(6);
            v.push(14);
            v.push(19);
            proof {
                assert(v@.map_values(|t: i32| t as int) =~= seq![4int, 6, 14, 19]);
            }
            Some(v)
        } else if crate::config::str_eq(subscription, "Audit.AzureActiveDirectory") {
            let mut v: Vec<i32> = Vec::new();
            v.push(8);
            v.push(15);
            proof {
                assert(v@.map_values(|t: i32| t as int) =~= seq![8int, 15]);
            }
            Some(v)
        } else if crate::config::str_eq(subscription, "Audit.General") {
            let mut v: Vec<i32> = Vec::new();
            v.push(25);
            v.push(30);
            v.push(32);
            v.push(40);
            v.push(44);
            v.push(62);
            v.push(63);
            v.push(64);
            v.push(65);
            v.push(70);
            proof {
                assert(v@.map_values(|t: i32| t as int) =~= seq![
                    25int,
                    30,
                    32,
                    40,
                    44,
                    62,
                    63,
                    64,
                    65,
                    70,
                ]);
            }
            Some(v)
        } else {
            None
        }
    }

    /// Whether a record of type `record_type` belongs to `subscription`.
    pub fn should_include_log(subscription: &str, record_type: i32) -> (r: bool)
        ensures
            r == match spec_allowed_recordtypes(subscription@) {
                Some(allowed) => allowed.contains(record_type as int),
                None => true,
            },
    {
        match Self::get_allowed_recordtypes(subscription) {
            Some(allowed) => {
                let ghost am = allowed@.map_values(|t: i32| t as int);
                let n = allowed.len();
                let mut i: usize = 0;
                while i < n
                    invariant
                        i <= n,
                        n == allowed@.len(),
                        am == allowed@.map_values(|t: i32| t as int),
                        spec_allowed_recordtypes(subscription@) == Some(am),
                        forall|j: int| 0 <= j < i ==> am[j] != record_type as int,
                    decreases n - i,
                {
                    if allowed[i] == record_type {
                        proof {
                            assert(am[i as int] == record_type as int);
                            assert(am.contains(record_type as int));
                        }
                        return true;
                    }
                    i = i + 1;
                }
                proof {
                    if am.contains(record_type as int) {
                        let j = choose|j: int| 0 <= j < am.len() && am[j] == record_type as int;
                        assert(am[j] != record_type as int);
                    }
                }
                false
            },
            None => true,
        }
    }

    /// The name of a record type.
    pub fn get_recordtype_description(record_type: i32) -> (r: &'static str)
        ensures
            r@ == spec_recordtype_description(record_type as int),
    {
        if record_type == 1 {
            "ExchangeAdmin"
        } else if record_type == 2 {
            "ExchangeItem"
        } else if record_type == 3 {
            "ExchangeItemGroup"
        } else if record_type == 4 {
            "SharePointFileOperation"
        } else if record_type == 6 {
            "SharePointFileOperation"
        } else if record_type == 8 {
            "AzureActiveDirectory"
        } else if record_type == 11 {
            "ComplianceDLPSharePoint"
        } else if record_type == 13 {
            "ComplianceDLPExchange"
        } else if record_type == 14 {
            "SharePointSharingOperation"
        } else if record_type == 15 {
            "AzureActiveDirectoryStsLogon"
        } else if record_type == 19 {
            "SharePointListOperation"
        } else if record_type == 20 {
            "ExchangeItemAggregated"
        } else if record_type == 25 {
            "MicrosoftTeams"
        } else if record_type == 28 {
            "DLPRuleMatch"
        } else if record_type == 30 {
            "MicrosoftFlow"
        } else if record_type == 32 {
            "Yammer"
        } else if record_type == 40 {
            "DynamicsCRM"
        } else if record_type == 44 {
            "PowerBI"
        } else if record_type == 50 {
            "MailSubmission"
        } else if record_type == 62 {
            "MicrosoftForms"
        } else if record_type == 63 {
            "MicrosoftDefenderForEndpoint"
        } else if record_type == 64 {
            "WorkplaceAnalytics"
        } else if record_type == 65 {
            "PowerAppsApp"
        } else if record_type == 70 {
            "MicrosoftGraphDataConnect"
        } else {
            "Unknown"
        }
    }
}

/// The name of a record type.
pub open spec fn spec_recordtype_description(record_type: int) -> Seq<char> {
    if record_type == 1 {
        "ExchangeAdmin"@
    } else if record_type == 2 {
        "ExchangeItem"@
    } else if record_type == 3 {
        "ExchangeItemGroup"@
    } else if record_type == 4 {
        "SharePointFileOperation"@
    } else if record_type == 6 {
        "SharePointFileOperation"@
    } else if record_type == 8 {
        "AzureActiveDirectory"@
    } else if record_type == 11 {
        "ComplianceDLPSharePoint"@
    } else if record_type == 13 {
        "ComplianceDLPExchange"@
    } else if record_type == 14 {
        "SharePointSharingOperation"@
    } else if record_type == 15 {
        "AzureActiveDirectoryStsLogon"@
    } else if record_type == 19 {
        "SharePointListOperation"@
    } else if record_type == 20 {
        "ExchangeItemAggregated"@
    } else if record_type == 25 {
        "MicrosoftTeams"@
    } else if record_type == 28 {
        "DLPRuleMatch"@
    } else if record_type == 30 {
        "MicrosoftFlow"@
    } else if record_type == 32 {
        "Yammer"@
    } else if record_type == 40 {
        "DynamicsCRM"@
    } else if record_type == 44 {
        "PowerBI"@
    } else if record_type == 50 {
        "MailSubmission"@
    } else if record_type == 62 {
        "MicrosoftForms"@
    } else if record_type == 63 {
        "MicrosoftDefenderForEndpoint"@
    } else if record_type == 64 {
        "WorkplaceAnalytics"@
    } else if record_type == 65 {
        "PowerAppsApp"@
    } else if record_type == 70 {
        "MicrosoftGraphDataConnect"@
    } else {
        "Unknown"@
    }
}

} // verus!
